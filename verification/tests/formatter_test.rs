use converter_core::emitter::formatter;

#[test]
fn collapses_multiple_blank_lines() {
    let raw = "a = 1\n\n\n\nb = 2";
    let out = formatter::format(raw);
    assert!(!out.contains("\n\n\n"), "triple blank should be collapsed:\n{}", out);
}

#[test]
fn trims_trailing_whitespace() {
    let raw = "a = 1   \nb = 2\t";
    let out = formatter::format(raw);
    for line in out.lines() {
        assert_eq!(line, line.trim_end(), "trailing whitespace on: {:?}", line);
    }
}

#[test]
fn ends_with_single_newline() {
    let raw = "@DATA(\n  x = 1\n)\n\n\n";
    let out = formatter::format(raw);
    assert!(out.ends_with('\n'));
    assert!(!out.ends_with("\n\n"));
}

#[test]
fn aligns_equals_in_property_block() {
    let raw = "  name = \"Alice\"\n  age = 30\n  active = true";
    let out = formatter::format(raw);
    // All = signs should be in the same column
    let col: Vec<usize> = out
        .lines()
        .filter(|l| l.contains(" = "))
        .map(|l| l.find(" = ").unwrap())
        .collect();
    assert!(col.windows(2).all(|w| w[0] == w[1]), "= signs not aligned:\n{}", out);
}

#[test]
fn does_not_align_across_blank_line_boundary() {
    let raw = "  short = 1\n\n  very_long_key = 2";
    let out = formatter::format(raw);
    assert!(out.contains("short"));
    assert!(out.contains("very_long_key"));
}

#[test]
fn round_trip_is_idempotent() {
    let raw = "@DATA(\n  name = \"Alice\"\n  age  = 30\n)\n";
    let once = formatter::format(raw);
    let twice = formatter::format(&once);
    assert_eq!(once, twice, "formatting is not idempotent");
}

// ── Exact results ───────────────────────────────────────────────────────────

#[test]
fn aligned_block_exact_text() {
    let out = formatter::format("  name = \"Alice\"\n  age = 30\n  active = true");
    assert_eq!(out, "  name   = \"Alice\"\n  age    = 30\n  active = true\n");
}

#[test]
fn blank_separated_lines_are_not_padded() {
    let out = formatter::format("  short = 1\n\n  very_long_key = 2");
    assert_eq!(out, "  short = 1\n\n  very_long_key = 2\n");
}

#[test]
fn empty_input_gives_a_lone_newline() {
    assert_eq!(formatter::format(""), "\n");
    assert_eq!(formatter::format("\n\n\n"), "\n");
    assert_eq!(formatter::format("   \t  "), "\n");
}

#[test]
fn leading_blank_lines_are_dropped() {
    assert_eq!(formatter::format("\n\n  a = 1\n"), "  a = 1\n");
}

#[test]
fn trailing_blank_line_keeps_one_newline() {
    assert_eq!(formatter::format("x\n\n"), "x\n");
    assert_eq!(formatter::format("x\n\n\ny"), "x\n\ny\n");
}

#[test]
fn carriage_returns_are_stripped() {
    assert_eq!(formatter::format("a = 1\r\nbb = 2\r\n"), "a  = 1\nbb = 2\n");
}

#[test]
fn different_indentation_starts_a_new_block() {
    let out = formatter::format("  a = 1\n    bbbb = 2\n  cc = 3");
    assert_eq!(out, "  a = 1\n    bbbb = 2\n  cc = 3\n");
}

#[test]
fn keys_with_brackets_or_quotes_are_not_aligned() {
    let out = formatter::format("f(x) = 1\nlong_key = 2");
    assert_eq!(out, "f(x) = 1\nlong_key = 2\n");
    let out = formatter::format("\"k\" = 1\nlong_key = 2");
    assert_eq!(out, "\"k\" = 1\nlong_key = 2\n");
}

#[test]
fn padding_counts_bytes_of_the_key() {
    // "é" takes two bytes, so the one-character key is padded to three bytes.
    let out = formatter::format("é = 1\nabc = 2");
    assert_eq!(out, "é  = 1\nabc = 2\n");
}

#[test]
fn idempotent_on_assorted_inputs() {
    let inputs = [
        "",
        "\n",
        "x\n\n",
        "  a = 1\n  bb = 2\n\n\n  ccc = 3   \n",
        "\tk = v\n\tkey = value = more\n",
        "@DATA(\n  name = \"Alice\"\n  age  = 30\n)\n\n\n",
        "a  = 1\nbbbbb = 2\r\n\r\n",
    ];
    for raw in inputs.iter() {
        let once = formatter::format(raw);
        assert_eq!(formatter::format(&once), once, "not idempotent on {:?}", raw);
        assert!(once.ends_with('\n') && !once.ends_with("\n\n"), "bad ending for {:?}", raw);
        assert!(!once.contains("\n\n\n"), "blank run for {:?}", raw);
    }
}
