//! Emission: turns a named induction result into `.mdix` source text.
pub mod formatter;
pub mod format_laws;
pub mod laws;

use vstd::prelude::*;
use crate::emitter::formatter::spec_format;
use crate::induction::enums::{EnumCandidate, EnumV, enums_view, strings_view};
use crate::induction::functions::{FuncCandidate, FuncV, funcs_view};
use crate::ingestion::ir::{
    Node, NodeV, Primitive, fields_view, lemma_array_view, lemma_record_view, node_view,
};
use crate::naming::Named;
use crate::text::{
    append_chars, append_str, chars_of, dec_int, dec_nat, push_dec_i64, push_dec_u64,
    repeat_char, str_to_uppercase, string_from_chars, upper_str,
};
use crate::ConvertError;

verus! {

broadcast use vstd::seq_lib::group_seq_properties;

// ── Specification ────────────────────────────────────────────────────────────

/// The fixed `@CONFIG` section that opens every document.
pub open spec fn config_section() -> Seq<char> {
    "@CONFIG(\n  version  -> \"1.0.0\"\n  features -> \"data\"\n)\n\n"@
}

/// `' '` and `'-'` become `'_'`.
pub open spec fn underscored(s: Seq<char>) -> Seq<char> {
    s.map_values(
        |c: char|
            if c == ' ' || c == '-' {
                '_'
            } else {
                c
            },
    )
}

/// An enum field name: separators replaced by `_`, then uppercased.
pub open spec fn screaming_snake(s: Seq<char>) -> Seq<char> {
    upper_str(underscored(s))
}

/// A string with `\` and `"` escaped by a backslash.
pub open spec fn escaped(s: Seq<char>) -> Seq<char>
    decreases s.len(),
{
    if s.len() == 0 {
        seq![]
    } else {
        escaped(s.drop_last()) + if s.last() == '\\' || s.last() == '"' {
            seq!['\\', s.last()]
        } else {
            seq![s.last()]
        }
    }
}

pub open spec fn bool_text(b: bool) -> Seq<char> {
    if b {
        "true"@
    } else {
        "false"@
    }
}

/// A value written on one line.
pub open spec fn inline(n: NodeV) -> Seq<char>
    decreases n,
{
    match n {
        NodeV::Str(s) => seq!['"'] + escaped(s) + seq!['"'],
        NodeV::Int(i) => dec_int(i as int),
        NodeV::Float(_, t) => t,
        NodeV::Bool(b) => bool_text(b),
        NodeV::Null => "null"@,
        NodeV::Record(fs) => "{ "@ + inline_fields(fs, fs.len() as int) + " }"@,
        NodeV::Array(xs) => "[ "@ + inline_items(xs, xs.len() as int) + " ]"@,
    }
}

/// `key = value` of the first `k` fields, joined by `", "`.
pub open spec fn inline_fields(fs: Seq<(Seq<char>, NodeV)>, k: int) -> Seq<char>
    decreases fs, k,
{
    if k <= 0 || k > fs.len() {
        seq![]
    } else {
        let piece = fs[k - 1].0 + " = "@ + inline(fs[k - 1].1);
        if k == 1 {
            piece
        } else {
            inline_fields(fs, k - 1) + ", "@ + piece
        }
    }
}

/// The first `k` items, each inline, joined by `", "`.
pub open spec fn inline_items(xs: Seq<NodeV>, k: int) -> Seq<char>
    decreases xs, k,
{
    if k <= 0 || k > xs.len() {
        seq![]
    } else {
        let piece = inline(xs[k - 1]);
        if k == 1 {
            piece
        } else {
            inline_items(xs, k - 1) + ", "@ + piece
        }
    }
}

/// The reference `EnumName.FIELD` for the string `s` found under `key`: the
/// first enum that lists `key` among its keys and `s` among its values.
pub open spec fn enum_ref(enums: Seq<EnumV>, key: Seq<char>, s: Seq<char>) -> Option<Seq<char>>
    decreases enums.len(),
{
    if enums.len() == 0 {
        None
    } else if enums[0].keys.contains(key) && enums[0].values.contains(s) {
        Some(enums[0].name + seq!['.'] + screaming_snake(s))
    } else {
        enum_ref(enums.drop_first(), key, s)
    }
}

/// A field value, written as an enum reference where one applies.
pub open spec fn value_with_enums(n: NodeV, key: Seq<char>, enums: Seq<EnumV>) -> Seq<char> {
    match n {
        NodeV::Str(s) => match enum_ref(enums, key, s) {
            Some(r) => r,
            None => inline(n),
        },
        _ => inline(n),
    }
}

/// Indentation of nesting level `depth`: two spaces per level.
pub open spec fn pad(depth: nat) -> Seq<char> {
    repeat_char(' ', 2 * depth)
}

/// The `@DATA` body of a node at nesting level `depth`.
pub open spec fn body(n: NodeV, depth: nat, enums: Seq<EnumV>) -> Seq<char>
    decreases n,
{
    match n {
        NodeV::Record(fs) => body_fields(fs, fs.len() as int, depth, enums),
        NodeV::Array(xs) => body_items(xs, xs.len() as int, depth),
        _ => inline(n) + seq!['\n'],
    }
}

/// The lines of the first `k` fields of a record: a nested record or array as
/// `key::` followed by its body one level deeper, anything else as `key = value`.
pub open spec fn body_fields(fs: Seq<(Seq<char>, NodeV)>, k: int, depth: nat, enums: Seq<EnumV>) -> Seq<char>
    decreases fs, k,
{
    if k <= 0 || k > fs.len() {
        seq![]
    } else {
        let key = fs[k - 1].0;
        let v = fs[k - 1].1;
        body_fields(fs, k - 1, depth, enums) + match v {
            NodeV::Record(_) => pad(depth) + key + "::\n"@ + body(v, depth + 1, enums),
            NodeV::Array(_) => pad(depth) + key + "::\n"@ + body(v, depth + 1, enums),
            _ => pad(depth) + key + " = "@ + value_with_enums(v, key, enums) + seq!['\n'],
        }
    }
}

/// The lines of the first `k` items of an array, each inline.
pub open spec fn body_items(xs: Seq<NodeV>, k: int, depth: nat) -> Seq<char>
    decreases k,
{
    if k <= 0 || k > xs.len() {
        seq![]
    } else {
        body_items(xs, k - 1, depth) + pad(depth) + inline(xs[k - 1]) + seq!['\n']
    }
}

/// One enum field: `  NAME = index`.
pub open spec fn enum_field(v: Seq<char>, i: int) -> Seq<char> {
    "  "@ + screaming_snake(v) + " = "@ + dec_int(i)
}

/// The first `k` fields of an enum, joined by `", "`.
pub open spec fn enum_fields(vals: Seq<Seq<char>>, k: int) -> Seq<char>
    decreases k,
{
    if k <= 0 || k > vals.len() {
        seq![]
    } else if k == 1 {
        enum_field(vals[0], 0)
    } else {
        enum_fields(vals, k - 1) + ", "@ + enum_field(vals[k - 1], k - 1)
    }
}

/// One enum definition line.
pub open spec fn enum_line(e: EnumV) -> Seq<char> {
    "  "@ + e.name + " { "@ + enum_fields(e.values, e.values.len() as int) + " }\n"@
}

pub open spec fn enum_lines(es: Seq<EnumV>) -> Seq<char>
    decreases es.len(),
{
    if es.len() == 0 {
        seq![]
    } else {
        enum_lines(es.drop_last()) + enum_line(es.last())
    }
}

/// The `@ENUMS` section.
pub open spec fn enums_section(es: Seq<EnumV>) -> Seq<char> {
    "@ENUMS(\n"@ + enum_lines(es) + ")\n\n"@
}

/// The first `k` strings, joined by `", "`.
pub open spec fn comma_list(ss: Seq<Seq<char>>, k: int) -> Seq<char>
    decreases k,
{
    if k <= 0 || k > ss.len() {
        seq![]
    } else if k == 1 {
        ss[0]
    } else {
        comma_list(ss, k - 1) + ", "@ + ss[k - 1]
    }
}

/// `      key = key` for each parameter.
pub open spec fn param_lines(ps: Seq<Seq<char>>) -> Seq<char>
    decreases ps.len(),
{
    if ps.len() == 0 {
        seq![]
    } else {
        param_lines(ps.drop_last()) + "      "@ + ps.last() + " = "@ + ps.last() + seq!['\n']
    }
}

/// `      key = value` for each default.
pub open spec fn default_lines(ds: Seq<(Seq<char>, NodeV)>) -> Seq<char>
    decreases ds.len(),
{
    if ds.len() == 0 {
        seq![]
    } else {
        default_lines(ds.drop_last()) + "      "@ + ds.last().0 + " = "@ + inline(ds.last().1)
            + seq!['\n']
    }
}

/// One QuickFunc definition.
pub open spec fn func_block(f: FuncV) -> Seq<char> {
    "  ~"@ + f.name + "<object>("@ + comma_list(f.params, f.params.len() as int)
        + ") {\n    return {\n"@ + param_lines(f.params) + default_lines(f.defaults)
        + "    }\n  }\n"@
}

pub open spec fn func_blocks(fs: Seq<FuncV>) -> Seq<char>
    decreases fs.len(),
{
    if fs.len() == 0 {
        seq![]
    } else {
        func_blocks(fs.drop_last()) + func_block(fs.last())
    }
}

/// The `@QUICKFUNCS` section.
pub open spec fn quickfuncs_section(fs: Seq<FuncV>) -> Seq<char> {
    "@QUICKFUNCS(\n"@ + func_blocks(fs) + ")\n\n"@
}

/// The `@DATA` section.
pub open spec fn data_section(root: NodeV, es: Seq<EnumV>) -> Seq<char> {
    "@DATA(\n"@ + body(root, 1, es) + ")\n"@
}

/// The document before formatting: `@CONFIG`, then `@ENUMS` and `@QUICKFUNCS`
/// when there is anything to define, then `@DATA`.
pub open spec fn raw_document(root: NodeV, es: Seq<EnumV>, fs: Seq<FuncV>) -> Seq<char> {
    config_section() + (if es.len() > 0 {
        enums_section(es)
    } else {
        seq![]
    }) + (if fs.len() > 0 {
        quickfuncs_section(fs)
    } else {
        seq![]
    }) + data_section(root, es)
}

/// The emitted document: the raw document, formatted.
pub open spec fn spec_emit(root: NodeV, es: Seq<EnumV>, fs: Seq<FuncV>) -> Seq<char> {
    spec_format(raw_document(root, es, fs))
}

// ── Implementation ──────────────────────────────────────────────────────────

fn push_escaped(out: &mut Vec<char>, s: &str)
    ensures
        final(out)@ == old(out)@ + escaped(s@),
{
    let cs = chars_of(s);
    let mut i: usize = 0;
    while i < cs.len()
        invariant
            i <= cs.len(),
            cs@ == s@,
            out@ == old(out)@ + escaped(cs@.take(i as int)),
        decreases cs.len() - i,
    {
        let c = cs[i];
        if c == '\\' || c == '"' {
            out.push('\\');
        }
        out.push(c);
        assert(cs@.take(i + 1).drop_last() =~= cs@.take(i as int));
        assert(out@ =~= old(out)@ + escaped(cs@.take(i + 1)));
        i = i + 1;
    }
    assert(cs@.take(i as int) =~= cs@);
}

/// `s` with spaces and hyphens as underscores, upper-cased.
fn to_screaming_snake(s: &str) -> (r: Vec<char>)
    ensures
        r@ == screaming_snake(s@),
{
    let cs = chars_of(s);
    let mut u: Vec<char> = Vec::new();
    let mut i: usize = 0;
    while i < cs.len()
        invariant
            i <= cs.len(),
            cs@ == s@,
            u@ == underscored(cs@.take(i as int)),
        decreases cs.len() - i,
    {
        let c = cs[i];
        if c == ' ' || c == '-' {
            u.push('_');
        } else {
            u.push(c);
        }
        assert(u@ =~= underscored(cs@.take(i + 1)));
        i = i + 1;
    }
    assert(cs@.take(i as int) =~= cs@);
    let joined = string_from_chars(u.as_slice());
    let up = str_to_uppercase(joined.as_str());
    chars_of(up.as_str())
}

/// Writes `n` inline.
fn push_inline(out: &mut Vec<char>, n: &Node)
    ensures
        final(out)@ == old(out)@ + inline(n@),
    decreases n,
{
    match n {
        Node::Primitive(p) => match p {
            Primitive::Str(s) => {
                out.push('"');
                push_escaped(out, s.as_str());
                out.push('"');
                assert(out@ =~= old(out)@ + inline(n@));
            },
            Primitive::Int(i) => {
                push_dec_i64(out, *i);
            },
            Primitive::Float(f) => {
                append_str(out, f.text.as_str());
            },
            Primitive::Bool(b) => {
                if *b {
                    append_str(out, "true");
                } else {
                    append_str(out, "false");
                }
            },
        },
        Node::Null => {
            append_str(out, "null");
        },
        Node::Record(r) => {
            proof {
                lemma_record_view(*r);
            }
            append_str(out, "{ ");
            let ghost start = out@;
            let mut i: usize = 0;
            while i < r.fields.len()
                invariant
                    i <= r.fields.len(),
                    *n == Node::Record(*r),
                    r@ == fields_view(r.fields@),
                    out@ == start + inline_fields(r@, i as int),
                decreases r.fields.len() - i,
            {
                assert(r@[i as int] == (r.fields@[i as int].0@, node_view(r.fields@[i as int].1)));
                if i > 0 {
                    append_str(out, ", ");
                }
                append_str(out, r.fields[i].0.as_str());
                append_str(out, " = ");
                proof {
                    assert(decreases_to!(*n => n->Record_0));
                    broadcast use vstd::std_specs::vec::axiom_vec_index_decreases;

                    assert(decreases_to!(r.fields => r.fields[i as int]));
                }
                push_inline(out, &r.fields[i].1);
                assert(out@ =~= start + inline_fields(r@, i + 1));
                i = i + 1;
            }
            append_str(out, " }");
            assert(out@ =~= old(out)@ + inline(n@));
        },
        Node::Array(items) => {
            proof {
                lemma_array_view(*items);
            }
            let ghost xs = items@.map_values(|m: Node| node_view(m));
            append_str(out, "[ ");
            let ghost start = out@;
            let mut i: usize = 0;
            while i < items.len()
                invariant
                    i <= items.len(),
                    *n == Node::Array(*items),
                    xs == items@.map_values(|m: Node| node_view(m)),
                    out@ == start + inline_items(xs, i as int),
                decreases items.len() - i,
            {
                if i > 0 {
                    append_str(out, ", ");
                }
                proof {
                    assert(decreases_to!(*n => n->Array_0));
                    broadcast use vstd::std_specs::vec::axiom_vec_index_decreases;

                    assert(decreases_to!(*items => items[i as int]));
                }
                push_inline(out, &items[i]);
                assert(out@ =~= start + inline_items(xs, i + 1));
                i = i + 1;
            }
            append_str(out, " ]");
            assert(out@ =~= old(out)@ + inline(n@));
        },
    }
}

fn strings_eq(a: &String, b: &String) -> (r: bool)
    ensures
        r == (a@ == b@),
{
    a.eq(b)
}

fn contains_str(v: &Vec<String>, s: &String) -> (r: bool)
    ensures
        r == strings_view(v@).contains(s@),
{
    let mut i: usize = 0;
    while i < v.len()
        invariant
            i <= v.len(),
            forall|j: int| 0 <= j < i ==> strings_view(v@)[j] != s@,
        decreases v.len() - i,
    {
        if strings_eq(&v[i], s) {
            assert(strings_view(v@)[i as int] == s@);
            return true;
        }
        i = i + 1;
    }
    false
}

/// Writes a field value, as an enum reference where one applies.
fn push_value_with_enums(out: &mut Vec<char>, n: &Node, key: &String, enums: &Vec<EnumCandidate>)
    ensures
        final(out)@ == old(out)@ + value_with_enums(n@, key@, enums_view(enums@)),
{
    if let Node::Primitive(Primitive::Str(s)) = n {
        let ghost es = enums_view(enums@);
        assert(es.skip(0) =~= es);
        let mut i: usize = 0;
        while i < enums.len()
            invariant
                i <= enums.len(),
                es == enums_view(enums@),
                n@ == NodeV::Str(s@),
                out@ == old(out)@,
                enum_ref(es, key@, s@) == enum_ref(es.skip(i as int), key@, s@),
            decreases enums.len() - i,
        {
            let e = &enums[i];
            assert(es.skip(i as int)[0] == e@);
            if contains_str(&e.keys, key) && contains_str(&e.values, s) {
                append_str(out, e.name.as_str());
                out.push('.');
                let sc = to_screaming_snake(s.as_str());
                append_chars(out, &sc);
                assert(out@ =~= old(out)@ + value_with_enums(n@, key@, es));
                return;
            }
            assert(es.skip(i as int).drop_first() =~= es.skip(i + 1));
            i = i + 1;
        }
        assert(es.skip(i as int) =~= Seq::<EnumV>::empty());
        push_inline(out, n);
    } else {
        push_inline(out, n);
    }
}

fn push_pad(out: &mut Vec<char>, depth_pad: &Vec<char>)
    ensures
        final(out)@ == old(out)@ + depth_pad@,
{
    append_chars(out, depth_pad);
}

/// Writes the `@DATA` body of `n`; `indent` holds the indentation of its level.
fn push_body(out: &mut Vec<char>, n: &Node, indent: &Vec<char>, enums: &Vec<EnumCandidate>, Ghost(depth): Ghost<nat>)
    requires
        indent@ == pad(depth),
    ensures
        final(out)@ == old(out)@ + body(n@, depth, enums_view(enums@)),
    decreases n,
{
    let ghost es = enums_view(enums@);
    match n {
        Node::Record(r) => {
            proof {
                lemma_record_view(*r);
            }
            let mut deeper = Vec::new();
            append_chars(&mut deeper, indent);
            deeper.push(' ');
            deeper.push(' ');
            assert(deeper@ =~= pad(depth + 1));
            let ghost start = out@;
            let mut i: usize = 0;
            while i < r.fields.len()
                invariant
                    i <= r.fields.len(),
                    *n == Node::Record(*r),
                    r@ == fields_view(r.fields@),
                    n@ == NodeV::Record(r@),
                    indent@ == pad(depth),
                    deeper@ == pad(depth + 1),
                    es == enums_view(enums@),
                    out@ == start + body_fields(r@, i as int, depth, es),
                decreases r.fields.len() - i,
            {
                assert(r@[i as int] == (r.fields@[i as int].0@, node_view(r.fields@[i as int].1)));
                let key = &r.fields[i].0;
                let value = &r.fields[i].1;
                match value {
                    Node::Array(_) | Node::Record(_) => {
                        push_pad(out, indent);
                        append_str(out, key.as_str());
                        append_str(out, "::\n");
                        proof {
                            assert(decreases_to!(*n => n->Record_0));
                            broadcast use vstd::std_specs::vec::axiom_vec_index_decreases;

                            assert(decreases_to!(r.fields => r.fields[i as int]));
                        }
                        push_body(out, value, &deeper, enums, Ghost(depth + 1));
                    },
                    _ => {
                        push_pad(out, indent);
                        append_str(out, key.as_str());
                        append_str(out, " = ");
                        push_value_with_enums(out, value, key, enums);
                        out.push('\n');
                    },
                }
                assert(out@ =~= start + body_fields(r@, i + 1, depth, es));
                i = i + 1;
            }
            assert(out@ =~= old(out)@ + body(n@, depth, es));
        },
        Node::Array(items) => {
            proof {
                lemma_array_view(*items);
            }
            let ghost xs = items@.map_values(|m: Node| node_view(m));
            let ghost start = out@;
            let mut i: usize = 0;
            while i < items.len()
                invariant
                    i <= items.len(),
                    xs == items@.map_values(|m: Node| node_view(m)),
                    indent@ == pad(depth),
                    out@ == start + body_items(xs, i as int, depth),
                decreases items.len() - i,
            {
                push_pad(out, indent);
                push_inline(out, &items[i]);
                out.push('\n');
                assert(out@ =~= start + body_items(xs, i + 1, depth));
                i = i + 1;
            }
            assert(out@ =~= old(out)@ + body(n@, depth, es));
        },
        _ => {
            push_inline(out, n);
            out.push('\n');
            assert(out@ =~= old(out)@ + body(n@, depth, es));
        },
    }
}

/// Writes the `@ENUMS` section.
fn push_enums(out: &mut Vec<char>, enums: &Vec<EnumCandidate>)
    ensures
        final(out)@ == old(out)@ + enums_section(enums_view(enums@)),
{
    let ghost es = enums_view(enums@);
    append_str(out, "@ENUMS(\n");
    let ghost start = out@;
    let mut k: usize = 0;
    while k < enums.len()
        invariant
            k <= enums.len(),
            es == enums_view(enums@),
            out@ == start + enum_lines(es.take(k as int)),
        decreases enums.len() - k,
    {
        let e = &enums[k];
        let ghost ev = e@;
        assert(es[k as int] == ev);
        let ghost line_start = out@;
        append_str(out, "  ");
        append_str(out, e.name.as_str());
        append_str(out, " { ");
        let ghost fields_start = out@;
        let mut i: usize = 0;
        while i < e.values.len()
            invariant
                i <= e.values.len(),
                ev == e@,
                out@ == fields_start + enum_fields(ev.values, i as int),
            decreases e.values.len() - i,
        {
            if i > 0 {
                append_str(out, ", ");
            }
            append_str(out, "  ");
            let sc = to_screaming_snake(e.values[i].as_str());
            append_chars(out, &sc);
            append_str(out, " = ");
            push_dec_u64(out, i as u64);
            proof {
                assert(ev.values[i as int] == e.values@[i as int]@);
                assert(dec_int(i as int) == dec_nat(i as nat));
            }
            assert(out@ =~= fields_start + enum_fields(ev.values, i + 1));
            i = i + 1;
        }
        append_str(out, " }\n");
        assert(out@ =~= line_start + enum_line(ev));
        assert(es.take(k + 1).drop_last() =~= es.take(k as int));
        assert(out@ =~= start + enum_lines(es.take(k + 1)));
        k = k + 1;
    }
    assert(es.take(k as int) =~= es);
    append_str(out, ")\n\n");
    assert(out@ =~= old(out)@ + enums_section(es));
}

/// Writes one QuickFunc definition.
fn push_func_block(out: &mut Vec<char>, f: &FuncCandidate)
    ensures
        final(out)@ == old(out)@ + func_block(f@),
{
    let ghost fv = f@;
    let ghost block_start = old(out)@;
    append_str(out, "  ~");
    append_str(out, f.name.as_str());
    append_str(out, "<object>(");
    let ghost list_start = out@;
    let mut i: usize = 0;
    while i < f.param_keys.len()
        invariant
            i <= f.param_keys.len(),
            fv == f@,
            out@ == list_start + comma_list(fv.params, i as int),
        decreases f.param_keys.len() - i,
    {
        if i > 0 {
            append_str(out, ", ");
        }
        append_str(out, f.param_keys[i].as_str());
        assert(fv.params[i as int] == f.param_keys@[i as int]@);
        assert(out@ =~= list_start + comma_list(fv.params, i + 1));
        i = i + 1;
    }
    append_str(out, ") {\n    return {\n");
    let ghost params_start = out@;
    let mut i: usize = 0;
    while i < f.param_keys.len()
        invariant
            i <= f.param_keys.len(),
            fv == f@,
            out@ == params_start + param_lines(fv.params.take(i as int)),
        decreases f.param_keys.len() - i,
    {
        append_str(out, "      ");
        append_str(out, f.param_keys[i].as_str());
        append_str(out, " = ");
        append_str(out, f.param_keys[i].as_str());
        out.push('\n');
        assert(fv.params[i as int] == f.param_keys@[i as int]@);
        assert(fv.params.take(i + 1).drop_last() =~= fv.params.take(i as int));
        assert(out@ =~= params_start + param_lines(fv.params.take(i + 1)));
        i = i + 1;
    }
    assert(fv.params.take(i as int) =~= fv.params);
    let ghost defaults_start = out@;
    let mut i: usize = 0;
    while i < f.defaults.len()
        invariant
            i <= f.defaults.len(),
            fv == f@,
            out@ == defaults_start + default_lines(fv.defaults.take(i as int)),
        decreases f.defaults.len() - i,
    {
        append_str(out, "      ");
        append_str(out, f.defaults[i].0.as_str());
        append_str(out, " = ");
        push_inline(out, &f.defaults[i].1);
        out.push('\n');
        assert(fv.defaults[i as int] == (f.defaults@[i as int].0@, node_view(
            f.defaults@[i as int].1,
        )));
        assert(fv.defaults.take(i + 1).drop_last() =~= fv.defaults.take(i as int));
        assert(out@ =~= defaults_start + default_lines(fv.defaults.take(i + 1)));
        i = i + 1;
    }
    assert(fv.defaults.take(i as int) =~= fv.defaults);
    append_str(out, "    }\n  }\n");
    assert(out@ =~= block_start + func_block(fv));
}

/// Writes the `@QUICKFUNCS` section.
fn push_quickfuncs(out: &mut Vec<char>, funcs: &Vec<FuncCandidate>)
    ensures
        final(out)@ == old(out)@ + quickfuncs_section(funcs_view(funcs@)),
{
    let ghost fs = funcs_view(funcs@);
    append_str(out, "@QUICKFUNCS(\n");
    let ghost start = out@;
    let mut k: usize = 0;
    while k < funcs.len()
        invariant
            k <= funcs.len(),
            fs == funcs_view(funcs@),
            out@ == start + func_blocks(fs.take(k as int)),
        decreases funcs.len() - k,
    {
        let f = &funcs[k];
        assert(fs[k as int] == f@);
        push_func_block(out, f);
        assert(fs.take(k + 1).drop_last() =~= fs.take(k as int));
        assert(out@ =~= start + func_blocks(fs.take(k + 1)));
        k = k + 1;
    }
    assert(fs.take(k as int) =~= fs);
    append_str(out, ")\n\n");
    assert(out@ =~= old(out)@ + quickfuncs_section(fs));
}

/// Emits the full `.mdix` source of a named induction result.
pub fn emit(named: &Named) -> (r: Result<String, ConvertError>)
    ensures
        match r {
            Ok(s) => s@ == spec_emit(
                named.result.root@,
                enums_view(named.result.enums@),
                funcs_view(named.result.funcs@),
            ),
            Err(_) => false,
        },
{
    let res = &named.result;
    let mut out: Vec<char> = Vec::new();
    append_str(&mut out, "@CONFIG(\n  version  -> \"1.0.0\"\n  features -> \"data\"\n)\n\n");
    if res.enums.len() > 0 {
        push_enums(&mut out, &res.enums);
    }
    if res.funcs.len() > 0 {
        push_quickfuncs(&mut out, &res.funcs);
    }
    append_str(&mut out, "@DATA(\n");
    let mut indent: Vec<char> = Vec::new();
    indent.push(' ');
    indent.push(' ');
    assert(indent@ =~= pad(1));
    push_body(&mut out, &res.root, &indent, &res.enums, Ghost(1nat));
    append_str(&mut out, ")\n");
    assert(out@ =~= raw_document(
        res.root@,
        enums_view(res.enums@),
        funcs_view(res.funcs@),
    ));
    let raw = string_from_chars(out.as_slice());
    Ok(crate::emitter::formatter::format(raw.as_str()))
}

} // verus!
