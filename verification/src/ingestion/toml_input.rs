//! TOML ingestion: the `toml` crate parses the text; the resulting value is
//! mapped onto the tree.
//!
//!   string → Str, integer → Int, float → Float, boolean → Bool,
//!   datetime → Str (its RFC 3339 text), array → Array,
//!   table → Record (insertion order preserved).
use vstd::prelude::*;
use crate::ingestion::ir::{FloatValue, Node, NodeV, Primitive, Record, lemma_array_view, lemma_record_view, node_view, fields_view, fields_unique, items_unique, unique_keys};
use crate::ingestion::MAX_NESTING;
use crate::text::{append_str, string_from_chars};
use crate::ConvertError;

verus! {

/// `toml::Value`, declared so that it can be carried through verified code; its
/// contents are reached only through the functions below.
#[verifier::external_type_specification]
#[verifier::external_body]
pub struct ExTomlValue(toml::Value);

/// The variant of a `toml::Value`, with its scalar payload taken as plain values
/// (a float by its bits and `Display` text).
pub enum TomlShape {
    Str(String),
    Int(i64),
    Float(FloatValue),
    Bool(bool),
    Datetime,
    Array,
    Table,
}

// ── What the toml crate returns ─────────────────────────────────────────────

/// What `toml::from_str::<toml::Value>` returns for a text: the value, or the
/// `Display` text of the error.
pub uninterp spec fn toml_parse_outcome(text: Seq<char>) -> Result<toml::Value, Seq<char>>;

/// The variant of a value, with its scalar payload.
pub uninterp spec fn toml_shape_of(v: toml::Value) -> TomlShape;

/// The `Display` text of the datetime held by a value.
pub uninterp spec fn toml_datetime_text_of(v: toml::Value) -> Seq<char>;

/// The items of an array value, in order.
pub uninterp spec fn toml_items_of(v: toml::Value) -> Seq<toml::Value>;

/// The entries of a table value, in map order.
pub uninterp spec fn toml_entries_of(v: toml::Value) -> Seq<(Seq<char>, toml::Value)>;

/// Calls `toml::from_str` for a `toml::Value`; the result is what that call
/// returns for `text` (the error taken by its `Display` text).
#[verifier::external_body]
fn toml_from_str(text: &str) -> (r: Result<toml::Value, String>)
    ensures
        match r {
            Ok(v) => toml_parse_outcome(text@) == Ok::<toml::Value, Seq<char>>(v),
            Err(e) => toml_parse_outcome(text@) == Err::<toml::Value, Seq<char>>(e@),
        },
{
    match toml::from_str::<toml::Value>(text) {
        Ok(v) => Ok(v),
        Err(e) => Err(e.to_string()),
    }
}

/// Tells the variants of `toml::Value` apart and converts the scalar payload
/// (`f64::to_bits` and `Display` for a float).
#[verifier::external_body]
fn toml_shape(v: &toml::Value) -> (r: TomlShape)
    ensures
        r == toml_shape_of(*v),
{
    match v {
        toml::Value::String(s) => TomlShape::Str(s.clone()),
        toml::Value::Integer(i) => TomlShape::Int(*i),
        toml::Value::Float(f) => TomlShape::Float(FloatValue { bits: f.to_bits(), text: format!("{}", f) }),
        toml::Value::Boolean(b) => TomlShape::Bool(*b),
        toml::Value::Datetime(_) => TomlShape::Datetime,
        toml::Value::Array(_) => TomlShape::Array,
        toml::Value::Table(_) => TomlShape::Table,
    }
}

/// Calls `Display` of the `toml::value::Datetime` held by a value (RFC 3339 text).
#[verifier::external_body]
fn toml_datetime_text(v: &toml::Value) -> (r: String)
    ensures
        r@ == toml_datetime_text_of(*v),
{
    match v {
        toml::Value::Datetime(d) => d.to_string(),
        _ => String::new(),
    }
}

/// Moves the items out of an array value.
#[verifier::external_body]
fn toml_into_items(v: toml::Value) -> (r: Vec<toml::Value>)
    ensures
        r@ == toml_items_of(v),
{
    match v {
        toml::Value::Array(items) => items,
        _ => Vec::new(),
    }
}

/// Moves the entries out of a table value (`toml::map::Map::into_iter`), in map
/// order; a map holds each key once, so the keys are distinct.
#[verifier::external_body]
fn toml_into_entries(v: toml::Value) -> (r: Vec<(String, toml::Value)>)
    ensures
        r@.len() == toml_entries_of(v).len(),
        forall|i: int|
            0 <= i < r@.len() ==> (#[trigger] r@[i]).0@ == toml_entries_of(v)[i].0 && r@[i].1
                == toml_entries_of(v)[i].1,
        forall|i: int, j: int| 0 <= i < j < r@.len() ==> (#[trigger] r@[i]).0@ != (#[trigger] r@[j]).0@,
{
    match v {
        toml::Value::Table(m) => m.into_iter().collect(),
        _ => Vec::new(),
    }
}

// ── The tree of a TOML value ────────────────────────────────────────────────

/// The value nests at most `b` levels (a scalar is one level).
pub open spec fn toml_within(v: toml::Value, b: nat) -> bool
    decreases b, 1nat, 0nat,
{
    b > 0 && match toml_shape_of(v) {
        TomlShape::Array => toml_items_within(
            toml_items_of(v),
            (b - 1) as nat,
            toml_items_of(v).len() as int,
        ),
        TomlShape::Table => toml_entries_within(
            toml_entries_of(v),
            (b - 1) as nat,
            toml_entries_of(v).len() as int,
        ),
        _ => true,
    }
}

pub open spec fn toml_items_within(items: Seq<toml::Value>, b: nat, k: int) -> bool
    decreases b, 2nat, k,
{
    if k <= 0 || k > items.len() {
        true
    } else {
        toml_items_within(items, b, k - 1) && toml_within(items[k - 1], b)
    }
}

pub open spec fn toml_entries_within(entries: Seq<(Seq<char>, toml::Value)>, b: nat, k: int) -> bool
    decreases b, 2nat, k,
{
    if k <= 0 || k > entries.len() {
        true
    } else {
        toml_entries_within(entries, b, k - 1) && toml_within(entries[k - 1].1, b)
    }
}

/// `n` is the tree of the TOML value `v`.
pub open spec fn toml_ir(v: toml::Value, n: NodeV) -> bool
    decreases n,
{
    match toml_shape_of(v) {
        TomlShape::Str(s) => n == NodeV::Str(s@),
        TomlShape::Int(i) => n == NodeV::Int(i),
        TomlShape::Float(f) => n == NodeV::Float(f.bits, f.text@),
        TomlShape::Bool(b) => n == NodeV::Bool(b),
        TomlShape::Datetime => n == NodeV::Str(toml_datetime_text_of(v)),
        TomlShape::Array => match n {
            NodeV::Array(xs) => xs.len() == toml_items_of(v).len() && toml_items_ir(
                toml_items_of(v),
                xs,
                xs.len() as int,
            ),
            _ => false,
        },
        TomlShape::Table => match n {
            NodeV::Record(fs) => fs.len() == toml_entries_of(v).len() && toml_entries_ir(
                toml_entries_of(v),
                fs,
                fs.len() as int,
            ),
            _ => false,
        },
    }
}

pub open spec fn toml_items_ir(items: Seq<toml::Value>, xs: Seq<NodeV>, k: int) -> bool
    decreases xs, k,
{
    if k <= 0 || k > xs.len() || k > items.len() {
        k <= 0
    } else {
        toml_items_ir(items, xs, k - 1) && toml_ir(items[k - 1], xs[k - 1])
    }
}

pub open spec fn toml_entries_ir(
    entries: Seq<(Seq<char>, toml::Value)>,
    fs: Seq<(Seq<char>, NodeV)>,
    k: int,
) -> bool
    decreases fs, k,
{
    if k <= 0 || k > fs.len() || k > entries.len() {
        k <= 0
    } else {
        toml_entries_ir(entries, fs, k - 1) && fs[k - 1].0 == entries[k - 1].0 && toml_ir(
            entries[k - 1].1,
            fs[k - 1].1,
        )
    }
}

pub proof fn lemma_toml_items_within_prefix(items: Seq<toml::Value>, b: nat, n: int, k: int)
    requires
        0 <= k <= n <= items.len(),
        toml_items_within(items, b, n),
    ensures
        toml_items_within(items, b, k),
    decreases n - k,
{
    if k < n {
        lemma_toml_items_within_prefix(items, b, n - 1, k);
    }
}

pub proof fn lemma_toml_entries_within_prefix(
    entries: Seq<(Seq<char>, toml::Value)>,
    b: nat,
    n: int,
    k: int,
)
    requires
        0 <= k <= n <= entries.len(),
        toml_entries_within(entries, b, n),
    ensures
        toml_entries_within(entries, b, k),
    decreases n - k,
{
    if k < n {
        lemma_toml_entries_within_prefix(entries, b, n - 1, k);
    }
}

/// Builds the tree of `v`, allowing `b` levels of nesting: `None` exactly when
/// `v` nests deeper.
pub fn value_to_node(v: toml::Value, b: usize) -> (r: Option<Node>)
    ensures
        r is Some <==> toml_within(v, b as nat),
        r matches Some(n) ==> toml_ir(v, n@) && unique_keys(n@),
    decreases b,
{
    if b == 0 {
        return None;
    }
    let shape = toml_shape(&v);
    match shape {
        TomlShape::Str(s) => Some(Node::Primitive(Primitive::Str(s))),
        TomlShape::Int(i) => Some(Node::Primitive(Primitive::Int(i))),
        TomlShape::Float(f) => Some(Node::Primitive(Primitive::Float(f))),
        TomlShape::Bool(x) => Some(Node::Primitive(Primitive::Bool(x))),
        TomlShape::Datetime => Some(Node::Primitive(Primitive::Str(toml_datetime_text(&v)))),
        TomlShape::Array => {
            let ghost vv = v;
            let items = toml_into_items(v);
            let ghost its = items@;
            let mut rev: Vec<toml::Value> = Vec::new();
            let mut items = items;
            while items.len() > 0
                invariant
                    its == toml_items_of(vv),
                    its.len() == items@.len() + rev@.len(),
                    items@ == its.take(items@.len() as int),
                    forall|t: int| 0 <= t < rev@.len() ==> #[trigger] rev@[t] == its[its.len() - 1 - t],
                decreases items.len(),
            {
                let ghost before = items@;
                let x = items.pop().unwrap();
                assert(x == its[items@.len() as int]);
                rev.push(x);
                assert(items@ =~= its.take(items@.len() as int));
            }
            let mut out: Vec<Node> = Vec::new();
            let ghost bb = (b - 1) as nat;
            while rev.len() > 0
                invariant
                    its == toml_items_of(vv),
                    vv == v,
                    toml_shape_of(vv) == TomlShape::Array,
                    its.len() == out@.len() + rev@.len(),
                    bb == (b - 1) as nat,
                    b > 0,
                    forall|t: int| 0 <= t < rev@.len() ==> #[trigger] rev@[t] == its[its.len() - 1 - t],
                    toml_items_within(its, bb, out@.len() as int),
                    toml_items_ir(
                        its,
                        out@.map_values(|n: Node| node_view(n)),
                        out@.len() as int,
                    ),
                    items_unique(out@.map_values(|n: Node| node_view(n))),
                decreases rev.len(),
            {
                let k = out.len();
                let x = rev.pop().unwrap();
                assert(x == its[k as int]);
                match value_to_node(x, b - 1) {
                    Some(n) => {
                        let ghost prev = out@.map_values(|n: Node| node_view(n));
                        out.push(n);
                        proof {
                            let now = out@.map_values(|n: Node| node_view(n));
                            assert(now.take(k as int) =~= prev);
                            assert(now[k as int] == node_view(n));
                            lemma_items_ir_extend(its, prev, now, k as int);
                            assert(now.drop_last() =~= prev);
                        }
                    },
                    None => {
                        proof {
                            assert(!toml_within(its[k as int], bb));
                            if toml_within(vv, b as nat) {
                                assert(toml_items_within(its, bb, its.len() as int));
                                lemma_toml_items_within_prefix(its, bb, its.len() as int, k + 1);
                                assert(toml_items_within(its, bb, k + 1));
                                assert(false);
                            }
                        }
                        return None;
                    },
                }
            }
            proof {
                lemma_array_view(out);
                assert(out@.map_values(|n: Node| node_view(n)).len() == its.len());

            }
            Some(Node::Array(out))
        },
        TomlShape::Table => {
            let ghost vv = v;
            let entries = toml_into_entries(v);
            let ghost es = toml_entries_of(vv);
            assert forall|i: int, j: int| 0 <= i < j < es.len() implies #[trigger] es[i].0
                != #[trigger] es[j].0 by {
                assert(entries@[i].0@ == es[i].0 && entries@[j].0@ == es[j].0);
            }
            let mut rev: Vec<(String, toml::Value)> = Vec::new();
            let mut entries = entries;
            while entries.len() > 0
                invariant
                    es == toml_entries_of(vv),
                    es.len() == entries@.len() + rev@.len(),
                    forall|t: int|
                        0 <= t < entries@.len() ==> (#[trigger] entries@[t]).0@ == es[t].0
                            && entries@[t].1 == es[t].1,
                    forall|t: int|
                        0 <= t < rev@.len() ==> (#[trigger] rev@[t]).0@ == es[es.len() - 1
                            - t].0 && rev@[t].1 == es[es.len() - 1 - t].1,
                decreases entries.len(),
            {
                let x = entries.pop().unwrap();
                rev.push(x);
            }
            let mut fields: Vec<(String, Node)> = Vec::new();
            let ghost bb = (b - 1) as nat;
            while rev.len() > 0
                invariant
                    es == toml_entries_of(vv),
                    vv == v,
                    toml_shape_of(vv) == TomlShape::Table,
                    es.len() == fields@.len() + rev@.len(),
                    bb == (b - 1) as nat,
                    b > 0,
                    forall|t: int|
                        0 <= t < rev@.len() ==> (#[trigger] rev@[t]).0@ == es[es.len() - 1
                            - t].0 && rev@[t].1 == es[es.len() - 1 - t].1,
                    toml_entries_within(es, bb, fields@.len() as int),
                    toml_entries_ir(es, fields_view(fields@), fields@.len() as int),
                    forall|i: int, j: int| 0 <= i < j < es.len() ==> #[trigger] es[i].0 != #[trigger] es[j].0,
                    forall|t: int| 0 <= t < fields@.len() ==> (#[trigger] fields@[t]).0@ == es[t].0,
                    fields_unique(fields_view(fields@)),
                decreases rev.len(),
            {
                let k = fields.len();
                let (key, x) = rev.pop().unwrap();
                assert(key@ == es[k as int].0 && x == es[k as int].1);
                match value_to_node(x, b - 1) {
                    Some(n) => {
                        let ghost prev = fields_view(fields@);
                        fields.push((key, n));
                        proof {
                            let now = fields_view(fields@);
                            assert(now.take(k as int) =~= prev);
                            assert(now[k as int] == (es[k as int].0, node_view(n)));
                            lemma_entries_ir_extend(es, prev, now, k as int);
                            assert(now.drop_last() =~= prev);
                        }
                    },
                    None => {
                        proof {
                            assert(!toml_within(es[k as int].1, bb));
                            if toml_within(vv, b as nat) {
                                assert(toml_entries_within(es, bb, es.len() as int));
                                lemma_toml_entries_within_prefix(es, bb, es.len() as int, k + 1);
                                assert(toml_entries_within(es, bb, k + 1));
                                assert(false);
                            }
                        }
                        return None;
                    },
                }
            }
            let rec = Record { fields };
            proof {
                lemma_record_view(rec);
                let fs = fields_view(rec.fields@);
                assert forall|i: int, j: int| 0 <= i < j < fs.len() implies #[trigger] fs[i].0
                    != #[trigger] fs[j].0 by {
                    assert(fs[i].0 == rec.fields@[i].0@ && fs[j].0 == rec.fields@[j].0@);
                }
            }
            Some(Node::Record(rec))
        },
    }
}

proof fn lemma_items_ir_extend(items: Seq<toml::Value>, prev: Seq<NodeV>, now: Seq<NodeV>, k: int)
    requires
        0 <= k < items.len(),
        prev.len() == k,
        now.len() == k + 1,
        now.take(k) == prev,
        toml_items_ir(items, prev, k),
        toml_ir(items[k], now[k]),
    ensures
        toml_items_ir(items, now, k + 1),
{
    lemma_items_ir_same(items, prev, now, k);
}

proof fn lemma_items_ir_same(items: Seq<toml::Value>, a: Seq<NodeV>, b: Seq<NodeV>, k: int)
    requires
        0 <= k <= a.len(),
        k <= b.len(),
        forall|t: int| 0 <= t < k ==> a[t] == b[t],
        toml_items_ir(items, a, k),
    ensures
        toml_items_ir(items, b, k),
    decreases k,
{
    if k > 0 {
        lemma_items_ir_same(items, a, b, k - 1);
    }
}

proof fn lemma_entries_ir_extend(
    entries: Seq<(Seq<char>, toml::Value)>,
    prev: Seq<(Seq<char>, NodeV)>,
    now: Seq<(Seq<char>, NodeV)>,
    k: int,
)
    requires
        0 <= k < entries.len(),
        prev.len() == k,
        now.len() == k + 1,
        now.take(k) == prev,
        toml_entries_ir(entries, prev, k),
        now[k].0 == entries[k].0,
        toml_ir(entries[k].1, now[k].1),
    ensures
        toml_entries_ir(entries, now, k + 1),
{
    lemma_entries_ir_same(entries, prev, now, k);
}

proof fn lemma_entries_ir_same(
    entries: Seq<(Seq<char>, toml::Value)>,
    a: Seq<(Seq<char>, NodeV)>,
    b: Seq<(Seq<char>, NodeV)>,
    k: int,
)
    requires
        0 <= k <= a.len(),
        k <= b.len(),
        forall|t: int| 0 <= t < k ==> a[t] == b[t],
        toml_entries_ir(entries, a, k),
    ensures
        toml_entries_ir(entries, b, k),
    decreases k,
{
    if k > 0 {
        lemma_entries_ir_same(entries, a, b, k - 1);
    }
}

proof fn lemma_toml_items_ir_at(items: Seq<toml::Value>, xs: Seq<NodeV>, k: int)
    requires
        0 <= k <= xs.len(),
        k <= items.len(),
        toml_items_ir(items, xs, k),
    ensures
        forall|t: int| 0 <= t < k ==> toml_ir(items[t], #[trigger] xs[t]),
    decreases k,
{
    if k > 0 {
        lemma_toml_items_ir_at(items, xs, k - 1);
    }
}

proof fn lemma_toml_entries_ir_at(
    entries: Seq<(Seq<char>, toml::Value)>,
    fs: Seq<(Seq<char>, NodeV)>,
    k: int,
)
    requires
        0 <= k <= fs.len(),
        k <= entries.len(),
        toml_entries_ir(entries, fs, k),
    ensures
        forall|t: int|
            0 <= t < k ==> (#[trigger] fs[t]).0 == entries[t].0 && toml_ir(entries[t].1, fs[t].1),
    decreases k,
{
    if k > 0 {
        lemma_toml_entries_ir_at(entries, fs, k - 1);
    }
}

/// A TOML value has one tree.
pub proof fn lemma_toml_ir_unique(v: toml::Value, n1: NodeV, n2: NodeV)
    requires
        toml_ir(v, n1),
        toml_ir(v, n2),
    ensures
        n1 == n2,
    decreases n1,
{
    match toml_shape_of(v) {
        TomlShape::Array => {
            let items = toml_items_of(v);
            let xs1 = n1->Array_0;
            let xs2 = n2->Array_0;
            lemma_toml_items_ir_at(items, xs1, xs1.len() as int);
            lemma_toml_items_ir_at(items, xs2, xs2.len() as int);
            assert forall|t: int| 0 <= t < xs1.len() implies xs1[t] == xs2[t] by {
                assert(toml_ir(items[t], xs1[t]));
                assert(toml_ir(items[t], xs2[t]));
                lemma_toml_ir_unique(items[t], xs1[t], xs2[t]);
            }
            assert(xs1 =~= xs2);
        },
        TomlShape::Table => {
            let entries = toml_entries_of(v);
            let fs1 = n1->Record_0;
            let fs2 = n2->Record_0;
            lemma_toml_entries_ir_at(entries, fs1, fs1.len() as int);
            lemma_toml_entries_ir_at(entries, fs2, fs2.len() as int);
            assert forall|t: int| 0 <= t < fs1.len() implies fs1[t] == fs2[t] by {
                assert(toml_ir(entries[t].1, fs1[t].1));
                assert(toml_ir(entries[t].1, fs2[t].1));
                lemma_toml_ir_unique(entries[t].1, fs1[t].1, fs2[t].1);
            }
            assert(fs1 =~= fs2);
        },
        _ => {},
    }
}

/// The message of a TOML parse error.
pub open spec fn toml_error_message(e: Seq<char>) -> Seq<char> {
    "TOML parse error: "@ + e
}

/// The message for a document that nests deeper than `MAX_NESTING`.
pub open spec fn toml_depth_message() -> Seq<char> {
    "TOML parse error: document nests too deeply"@
}

/// The tree for what the TOML parser returned: its error becomes a parse
/// error with the parser's message; a value becomes its tree, unless it nests
/// deeper than `MAX_NESTING`.
pub fn from_parse_result(parsed: Result<toml::Value, String>) -> (r: Result<Node, ConvertError>)
    ensures
        match parsed {
            Err(e) => r matches Err(ConvertError::Parse(m)) && m@ == toml_error_message(e@),
            Ok(v) => if toml_within(v, MAX_NESTING as nat) {
                r matches Ok(n) && toml_ir(v, n@)
            } else {
                r matches Err(ConvertError::Parse(m)) && m@ == toml_depth_message()
            },
        },
        r matches Ok(n) ==> unique_keys(n@),
{
    match parsed {
        Ok(v) => {
            match value_to_node(v, MAX_NESTING) {
                Some(n) => Ok(n),
                None => {
                    let mut m: Vec<char> = Vec::new();
                    append_str(&mut m, "TOML parse error: document nests too deeply");
                    Err(ConvertError::Parse(string_from_chars(m.as_slice())))
                },
            }
        },
        Err(e) => {
            let mut m: Vec<char> = Vec::new();
            append_str(&mut m, "TOML parse error: ");
            append_str(&mut m, e.as_str());
            Err(ConvertError::Parse(string_from_chars(m.as_slice())))
        },
    }
}

/// Parses a TOML text into the tree.
pub fn parse(input: &str) -> (r: Result<Node, ConvertError>)
    ensures
        match toml_parse_outcome(input@) {
            Err(e) => r matches Err(ConvertError::Parse(m)) && m@ == toml_error_message(e),
            Ok(v) => if toml_within(v, MAX_NESTING as nat) {
                r matches Ok(n) && toml_ir(v, n@)
            } else {
                r matches Err(ConvertError::Parse(m)) && m@ == toml_depth_message()
            },
        },
        r matches Ok(n) ==> unique_keys(n@),
{
    from_parse_result(toml_from_str(input))
}

} // verus!
