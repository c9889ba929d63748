//! What every emitted document holds, whatever the tree and the candidates:
//! its `@CONFIG` and `@DATA` sections, and the `@ENUMS` and `@QUICKFUNCS`
//! sections whenever there is anything to define.
use vstd::prelude::*;
use crate::emitter::{config_section, data_section, enums_section, quickfuncs_section, raw_document, spec_emit, body, enum_lines, func_blocks};
use crate::emitter::format_laws::{clean_line, format_is_idempotent, format_keeps_plain_lines, lemma_no_equals_not_property};
use crate::emitter::formatter::spec_format;
use crate::induction::enums::EnumV;
use crate::induction::functions::FuncV;
use crate::ingestion::ir::NodeV;
use crate::emitter::{screaming_snake, underscored};
use crate::text::{all_ascii, ascii_upper, is_ascii_char, is_ws, lines};

verus! {

/// A section header: not blank, no newline, no trailing whitespace, no `=`.
proof fn lemma_header(l: Seq<char>)
    requires
        l.len() > 0,
        forall|k: int| 0 <= k < l.len() ==> l[k] != '\n' && l[k] != '=',
        !is_ws(l.last()),
    ensures
        clean_line(l),
        !crate::emitter::formatter::is_simple_property(l),
{
    lemma_no_equals_not_property(l);
}

/// The text before `@QUICKFUNCS` and the text before `@DATA`, each of which is
/// the `@CONFIG` section and possibly more sections, ends with a newline.
proof fn lemma_prefix_ends(es: Seq<EnumV>, fs: Seq<FuncV>)
    ensures
        config_section().last() == '\n',
        enum_part(es).len() > 0 ==> enum_part(es).last() == '\n',
        func_part(fs).len() > 0 ==> func_part(fs).last() == '\n',
        (config_section() + enum_part(es)).last() == '\n',
        (config_section() + enum_part(es) + func_part(fs)).last() == '\n',
{
    reveal_strlit("@CONFIG(\n  version  -> \"1.0.0\"\n  features -> \"data\"\n)\n\n");
    reveal_strlit(")\n\n");
    let cfg = config_section();
    let e = enum_part(es);
    let q = func_part(fs);
    if es.len() == 0 {
        assert(cfg + e =~= cfg);
    }
    if fs.len() == 0 {
        assert(cfg + e + q =~= cfg + e);
    }
}

/// The `@ENUMS` section when there are enums.
pub open spec fn enum_part(es: Seq<EnumV>) -> Seq<char> {
    if es.len() > 0 {
        enums_section(es)
    } else {
        seq![]
    }
}

/// The `@QUICKFUNCS` section when there are QuickFuncs.
pub open spec fn func_part(fs: Seq<FuncV>) -> Seq<char> {
    if fs.len() > 0 {
        quickfuncs_section(fs)
    } else {
        seq![]
    }
}

proof fn lemma_config_line(root: NodeV, es: Seq<EnumV>, fs: Seq<FuncV>)
    ensures
        lines(spec_emit(root, es, fs)).contains("@CONFIG("@),
{
    reveal_strlit("@CONFIG(");
    reveal_strlit("@CONFIG(\n  version  -> \"1.0.0\"\n  features -> \"data\"\n)\n\n");
    let lc = "@CONFIG("@;
    lemma_header(lc);
    let raw = raw_document(root, es, fs);
    let rest = config_section().skip(9) + enum_part(es) + func_part(fs) + data_section(root, es);
    assert(raw =~= Seq::<char>::empty() + lc + seq!['\n'] + rest);
    format_keeps_plain_lines(Seq::<char>::empty(), lc, rest);
}

proof fn lemma_data_line(root: NodeV, es: Seq<EnumV>, fs: Seq<FuncV>)
    ensures
        lines(spec_emit(root, es, fs)).contains("@DATA("@),
{
    reveal_strlit("@DATA(");
    reveal_strlit("@DATA(\n");
    let ld = "@DATA("@;
    lemma_header(ld);
    lemma_prefix_ends(es, fs);
    let p = config_section() + enum_part(es) + func_part(fs);
    let rest = body(root, 1, es) + ")\n"@;
    assert(raw_document(root, es, fs) =~= p + ld + seq!['\n'] + rest);
    format_keeps_plain_lines(p, ld, rest);
}

proof fn lemma_enums_line(root: NodeV, es: Seq<EnumV>, fs: Seq<FuncV>)
    requires
        es.len() > 0,
    ensures
        lines(spec_emit(root, es, fs)).contains("@ENUMS("@),
{
    reveal_strlit("@ENUMS(");
    reveal_strlit("@ENUMS(\n");
    let le = "@ENUMS("@;
    lemma_header(le);
    lemma_prefix_ends(es, fs);
    let p = config_section();
    let rest = enum_lines(es) + ")\n\n"@ + func_part(fs) + data_section(root, es);
    assert(raw_document(root, es, fs) =~= p + le + seq!['\n'] + rest);
    format_keeps_plain_lines(p, le, rest);
}

proof fn lemma_funcs_line(root: NodeV, es: Seq<EnumV>, fs: Seq<FuncV>)
    requires
        fs.len() > 0,
    ensures
        lines(spec_emit(root, es, fs)).contains("@QUICKFUNCS("@),
{
    reveal_strlit("@QUICKFUNCS(");
    reveal_strlit("@QUICKFUNCS(\n");
    let lq = "@QUICKFUNCS("@;
    lemma_header(lq);
    lemma_prefix_ends(es, fs);
    let p = config_section() + enum_part(es);
    let rest = func_blocks(fs) + ")\n\n"@ + data_section(root, es);
    assert(raw_document(root, es, fs) =~= p + lq + seq!['\n'] + rest);
    format_keeps_plain_lines(p, lq, rest);
}

/// The emitted document has the lines `@CONFIG(` and `@DATA(`, the line
/// `@ENUMS(` when there are enum candidates, and the line `@QUICKFUNCS(` when
/// there are QuickFunc candidates.
pub proof fn emit_has_sections(root: NodeV, es: Seq<EnumV>, fs: Seq<FuncV>)
    ensures
        lines(spec_emit(root, es, fs)).contains("@CONFIG("@),
        lines(spec_emit(root, es, fs)).contains("@DATA("@),
        es.len() > 0 ==> lines(spec_emit(root, es, fs)).contains("@ENUMS("@),
        fs.len() > 0 ==> lines(spec_emit(root, es, fs)).contains("@QUICKFUNCS("@),
{
    lemma_config_line(root, es, fs);
    lemma_data_line(root, es, fs);
    if es.len() > 0 {
        lemma_enums_line(root, es, fs);
    }
    if fs.len() > 0 {
        lemma_funcs_line(root, es, fs);
    }
}

/// An emitted document is already formatted: formatting it again changes nothing.
pub proof fn emit_is_formatted(root: NodeV, es: Seq<EnumV>, fs: Seq<FuncV>)
    ensures
        spec_format(spec_emit(root, es, fs)) == spec_emit(root, es, fs),
{
    format_is_idempotent(raw_document(root, es, fs));
}

/// The identifier written for an ASCII enum value, both as its field name in
/// `@ENUMS` and after `EnumName.` in `@DATA`, has one character per character of
/// the value: a space or a hyphen becomes `_`, every other character is
/// upper-cased; so it holds no space and no hyphen.
pub proof fn screaming_snake_of_ascii(s: Seq<char>)
    requires
        all_ascii(s),
    ensures
        screaming_snake(s).len() == s.len(),
        forall|i: int|
            0 <= i < s.len() ==> (#[trigger] screaming_snake(s)[i]) != ' ' && screaming_snake(s)[i]
                != '-',
        forall|i: int|
            0 <= i < s.len() ==> (s[i] == ' ' || s[i] == '-' ==> #[trigger] screaming_snake(s)[i]
                == '_'),
        forall|i: int|
            0 <= i < s.len() && s[i] != ' ' && s[i] != '-' ==> #[trigger] screaming_snake(s)[i]
                == ascii_upper(s[i]),
{
    let u = underscored(s);
    assert(all_ascii(u)) by {
        assert forall|i: int| 0 <= i < u.len() implies is_ascii_char(#[trigger] u[i]) by {
            assert(is_ascii_char(s[i]));
        }
    }
    assert(screaming_snake(s) == u.map_values(|c: char| ascii_upper(c)));
    assert forall|i: int| 0 <= i < s.len() implies (#[trigger] screaming_snake(s)[i]) != ' '
        && screaming_snake(s)[i] != '-' by {
        let c = u[i];
        if 97 <= (c as u32) <= 122 {
            let d = ((c as u32) - 32) as char;
            assert((d as u32) == (c as u32) - 32);
        }
    }
}

} // verus!
