//! What the formatter promises of every input, proved over its specification
//! (`spec_format`): formatting twice gives what formatting once gives; the text
//! ends with exactly one newline; no line keeps trailing whitespace; blank lines
//! never come two in a row; consecutive property lines at one indentation have
//! their ` = ` in one column.
use vstd::prelude::*;
use crate::emitter::formatter::{
    align, align_from, block_end, block_lines, collapse, dedup_blank, drop_leading_blank,
    format_lines, indent_width, is_simple_property, key_of, key_width, lemma_block_end,
    lemma_max_key_width, max_key_width, pad_line, spec_format, trim_lines, value_of,
};
use crate::text::{
    byte_len, eq_sep, find, find_from, index_of, is_ws, join, lemma_byte_len_concat,
    lemma_byte_len_push, lemma_find_from, lemma_index_of, lemma_trim_end, lemma_trim_end_idem,
    lemma_trim_start, lines, repeat_char, strip_cr, trim, trim_end, trim_start,
};

verus! {

broadcast use vstd::seq_lib::group_seq_properties;

// ── Characters and widths ───────────────────────────────────────────────────

proof fn lemma_byte_len_spaces(n: nat)
    ensures
        byte_len(repeat_char(' ', n)) == n,
    decreases n,
{
    if n > 0 {
        lemma_byte_len_spaces((n - 1) as nat);
        lemma_byte_len_push(repeat_char(' ', (n - 1) as nat), ' ');
        assert(repeat_char(' ', (n - 1) as nat).push(' ') =~= repeat_char(' ', n));
    } else {
        assert(repeat_char(' ', 0) =~= Seq::<char>::empty());
    }
}

proof fn lemma_trim_start_spaces(n: nat, t: Seq<char>)
    requires
        t.len() == 0 || !is_ws(t[0]),
    ensures
        trim_start(repeat_char(' ', n) + t) == t,
    decreases n,
{
    if n == 0 {
        assert(repeat_char(' ', 0) + t =~= t);
    } else {
        let s = repeat_char(' ', n) + t;
        assert(s[0] == ' ');
        assert(s.drop_first() =~= repeat_char(' ', (n - 1) as nat) + t);
        lemma_trim_start_spaces((n - 1) as nat, t);
    }
}

/// A trimmed text that is not empty starts and ends with a non-whitespace character.
proof fn lemma_trim_ends(l: Seq<char>)
    ensures
        trim(l).len() > 0 ==> !is_ws(trim(l)[0]) && !is_ws(trim(l).last()),
        trim_end(trim(l)) == trim(l),
{
    lemma_trim_start(l);
    lemma_trim_end(trim_start(l));
    lemma_trim_end_idem(trim_start(l));
    if trim(l).len() > 0 {
        assert(trim(l)[0] == trim_start(l)[0]);
    }
}

/// `find` returns the first position where the pattern occurs.
proof fn lemma_find_is(s: Seq<char>, p: Seq<char>, q: int)
    requires
        0 <= q,
        q + p.len() <= s.len(),
        s.subrange(q, q + p.len()) == p,
        forall|j: int| 0 <= j < q ==> #[trigger] s.subrange(j, j + p.len()) != p,
    ensures
        find(s, p) == q,
{
    lemma_find_from_is(s, p, q, 0);
}

proof fn lemma_find_from_is(s: Seq<char>, p: Seq<char>, q: int, i: int)
    requires
        0 <= i <= q,
        q + p.len() <= s.len(),
        s.subrange(q, q + p.len()) == p,
        forall|j: int| 0 <= j < q ==> #[trigger] s.subrange(j, j + p.len()) != p,
    ensures
        find_from(s, p, i) == q,
    decreases q - i,
{
    if i < q {
        assert(s.subrange(i, i + p.len()) != p);
        lemma_find_from_is(s, p, q, i + 1);
    }
}

// ── One property line ───────────────────────────────────────────────────────

/// The parts of a property line: its trimmed text is key, ` = `, value; the key
/// and the value are not empty and do not begin or end the line with whitespace.
proof fn lemma_property_parts(c: Seq<char>)
    requires
        is_simple_property(c),
    ensures
        trim(c) == key_of(c) + eq_sep() + value_of(c),
        key_of(c).len() > 0,
        !is_ws(key_of(c)[0]),
        value_of(c).len() > 0,
        !is_ws(value_of(c).last()),
        find(trim(c), eq_sep()) == key_of(c).len(),
        forall|j: int|
            0 <= j < key_of(c).len() ==> #[trigger] trim(c).subrange(j, j + 3) != eq_sep(),
{
    let t = trim(c);
    let p = find(t, eq_sep());
    lemma_find_from(t, eq_sep(), 0);
    lemma_trim_ends(c);
    assert(is_ws(' '));
    if p == 0 {
        assert(t.subrange(0, 3)[0] == t[0]);
    }
    if p + 3 == t.len() {
        assert(t.subrange(p, p + 3)[2] == t.last());
    }
    assert(t =~= key_of(c) + eq_sep() + value_of(c));
    assert(key_of(c)[0] == t[0]);
    assert(value_of(c).last() == t.last());
}

/// A character sequence without a newline.
pub open spec fn no_newline(s: Seq<char>) -> bool {
    forall|k: int| 0 <= k < s.len() ==> s[k] != '\n'
}

/// A line without a newline and without trailing whitespace.
pub open spec fn clean_line(l: Seq<char>) -> bool {
    no_newline(l) && trim_end(l) == l
}

proof fn lemma_trim_no_newline(c: Seq<char>)
    requires
        no_newline(c),
    ensures
        no_newline(trim(c)),
        no_newline(trim_end(c)),
{
    lemma_trim_start(c);
    lemma_trim_end(trim_start(c));
    lemma_trim_end(c);
    let k = c.len() - trim_start(c).len();
    assert forall|i: int| 0 <= i < trim(c).len() implies trim(c)[i] != '\n' by {
        assert(trim(c)[i] == trim_start(c)[i]);
        assert(trim_start(c)[i] == c[k + i]);
    }
    assert forall|i: int| 0 <= i < trim_end(c).len() implies trim_end(c)[i] != '\n' by {
        assert(trim_end(c)[i] == c[i]);
    }
}

/// Spaces before a text that starts and ends with non-whitespace: trimming
/// gives the text back, and the indentation is the number of spaces.
proof fn lemma_indented(ind: nat, rest: Seq<char>)
    requires
        rest.len() > 0,
        !is_ws(rest[0]),
        !is_ws(rest.last()),
    ensures
        trim(repeat_char(' ', ind) + rest) == rest,
        trim_end(repeat_char(' ', ind) + rest) == repeat_char(' ', ind) + rest,
        indent_width(repeat_char(' ', ind) + rest) == ind,
{
    let d = repeat_char(' ', ind) + rest;
    lemma_trim_start_spaces(ind, rest);
    assert(trim_end(rest) == rest);
    assert(d.last() == rest.last());
    lemma_byte_len_concat(repeat_char(' ', ind), rest);
    lemma_byte_len_spaces(ind);
}

/// Spaces inserted between a key and ` = ` leave the first ` = ` right after them.
proof fn lemma_relaid_find(key: Seq<char>, value: Seq<char>, m: nat)
    requires
        forall|j: int|
            0 <= j < key.len() ==> #[trigger] (key + eq_sep() + value).subrange(j, j + 3)
                != eq_sep(),
    ensures
        find(key + repeat_char(' ', m) + eq_sep() + value, eq_sep()) == key.len() + m,
{
    let t = key + eq_sep() + value;
    let rest = key + repeat_char(' ', m) + eq_sep() + value;
    let q: int = (key.len() + m) as int;
    assert(rest.subrange(q, q + 3) =~= eq_sep());
    assert forall|i: int| 0 <= i <= key.len() implies #[trigger] rest[i] == t[i] by {
        if i < key.len() {
            assert(rest[i] == key[i]);
            assert(t[i] == key[i]);
        } else {
            assert(t[i] == eq_sep()[0]);
        }
    }
    assert forall|j: int| 0 <= j < q implies #[trigger] rest.subrange(j, j + 3) != eq_sep() by {
        if j + 2 <= key.len() {
            assert(rest[j] == t[j]);
            assert(rest[j + 1] == t[j + 1]);
            assert(rest[j + 2] == t[j + 2]);
            assert(rest.subrange(j, j + 3) =~= t.subrange(j, j + 3));
        } else {
            assert(rest[j + 1] == ' ');
            assert(rest.subrange(j, j + 3)[1] == ' ');
            assert(eq_sep()[1] == '=');
        }
    }
    lemma_find_is(rest, eq_sep(), q);
}

proof fn lemma_spaces_lack(key: Seq<char>, m: nat, ch: char)
    requires
        !key.contains(ch),
        ch != ' ',
    ensures
        !(key + repeat_char(' ', m)).contains(ch),
{
    let s = key + repeat_char(' ', m);
    if s.contains(ch) {
        let k = choose|k: int| 0 <= k < s.len() && s[k] == ch;
        if k < key.len() {
            assert(key[k] == ch);
        } else {
            assert(repeat_char(' ', m)[k - key.len()] == ch);
        }
    }
}

/// Padding a property line keeps it a property line at the same indentation;
/// its key becomes the old key followed by spaces up to `w` bytes, its value is
/// kept, and padding it again to `w` changes nothing.
pub proof fn lemma_pad_line(c: Seq<char>, w: nat)
    requires
        is_simple_property(c),
        key_width(c) <= w,
    ensures
        is_simple_property(pad_line(c, w)),
        indent_width(pad_line(c, w)) == indent_width(c),
        key_width(pad_line(c, w)) == w,
        key_of(pad_line(c, w)) == key_of(c) + repeat_char(' ', (w - key_width(c)) as nat),
        value_of(pad_line(c, w)) == value_of(c),
        pad_line(pad_line(c, w), w) == pad_line(c, w),
        trim_end(pad_line(c, w)) == pad_line(c, w),
        pad_line(c, w).len() > 0,
{
    let key = key_of(c);
    let value = value_of(c);
    let m = (w - key_width(c)) as nat;
    let ind = indent_width(c);
    let sp = repeat_char(' ', m);
    lemma_property_parts(c);
    let rest = key + sp + eq_sep() + value;
    let d = pad_line(c, w);
    assert(d =~= repeat_char(' ', ind) + rest);
    assert(rest[0] == key[0]);
    assert(rest.last() == value.last());
    lemma_indented(ind, rest);
    lemma_relaid_find(key, value, m);
    let q: int = (key.len() + m) as int;
    assert(key_of(d) =~= key + sp);
    assert(value_of(d) =~= value);
    lemma_byte_len_concat(key, sp);
    lemma_byte_len_spaces(m);
    assert(trim(c).take(find(trim(c), eq_sep())) == key);
    lemma_spaces_lack(key, m, '(');
    lemma_spaces_lack(key, m, '[');
    lemma_spaces_lack(key, m, '"');
    assert(trim(d).take(find(trim(d), eq_sep())) == key + sp);
    assert(repeat_char(' ', 0) =~= Seq::<char>::empty());
    assert(pad_line(d, w) =~= d);
}

/// Padding keeps a line free of newlines.
pub proof fn lemma_pad_line_no_newline(c: Seq<char>, w: nat)
    requires
        is_simple_property(c),
        no_newline(c),
    ensures
        no_newline(pad_line(c, w)),
{
    let key = key_of(c);
    let value = value_of(c);
    let t = trim(c);
    lemma_property_parts(c);
    lemma_trim_no_newline(c);
    let ind = indent_width(c);
    let m = (w - key_width(c)) as nat;
    let rest = key + repeat_char(' ', m) + eq_sep() + value;
    let d = pad_line(c, w);
    assert(d =~= repeat_char(' ', ind) + rest);
    let q: int = (key.len() + m) as int;
    assert forall|k: int| 0 <= k < d.len() implies d[k] != '\n' by {
        if k >= ind {
            let r = k - ind;
            assert(d[k] == rest[r]);
            if r < key.len() {
                assert(rest[r] == t[r]);
            } else if r >= q + 3 {
                assert(rest[r] == value[r - q - 3]);
                assert(t[key.len() + 3 + (r - q - 3)] == value[r - q - 3]);
            }
        }
    }
}

// ── Lines after alignment ───────────────────────────────────────────────────

/// `n` is what alignment made of the line `o`: `o` itself, or the property line
/// `o` padded to the width of the new key.
pub open spec fn line_image(o: Seq<char>, n: Seq<char>) -> bool {
    ||| n == o
    ||| is_simple_property(o) && key_width(o) <= key_width(n) && n == pad_line(o, key_width(n))
}

/// What alignment keeps of a line: whether it is a property line, its indentation,
/// whether it is blank, and freedom from newlines and trailing whitespace.
pub proof fn lemma_line_image(o: Seq<char>, n: Seq<char>)
    requires
        line_image(o, n),
    ensures
        is_simple_property(n) == is_simple_property(o),
        is_simple_property(o) ==> indent_width(n) == indent_width(o),
        (n.len() == 0) == (o.len() == 0),
        clean_line(o) ==> clean_line(n),
{
    if n != o {
        lemma_pad_line(o, key_width(n));
        assert(trim(o).len() > 0);
        if no_newline(o) {
            lemma_pad_line_no_newline(o, key_width(n));
        }
    }
}

proof fn lemma_blank_not_property(l: Seq<char>)
    requires
        l.len() == 0,
    ensures
        !is_simple_property(l),
{
    lemma_trim_start(l);
    lemma_trim_end(trim_start(l));
}

/// Each line that alignment produces from position `i` on is the image of the
/// line at the same position.
pub proof fn lemma_align_shape(ls: Seq<Seq<char>>, i: int)
    requires
        0 <= i <= ls.len(),
    ensures
        align_from(ls, i).len() == ls.len() - i,
        forall|k: int| 0 <= k < ls.len() - i ==> line_image(ls[i + k], #[trigger] align_from(ls, i)[k]),
    decreases ls.len() - i,
{
    if i < ls.len() {
        let ind = indent_width(ls[i]);
        let j = block_end(ls, i, ind);
        lemma_block_end(ls, i, ind);
        if j == i {
            lemma_align_shape(ls, i + 1);
            let a = align_from(ls, i);
            assert(a == seq![ls[i]] + align_from(ls, i + 1));
            assert forall|k: int| 0 <= k < ls.len() - i implies line_image(ls[i + k], #[trigger] a[k]) by {
                if k > 0 {
                    assert(a[k] == align_from(ls, i + 1)[k - 1]);
                }
            }
        } else {
            lemma_align_shape(ls, j);
            let b = block_lines(ls, i, j);
            let a = align_from(ls, i);
            assert(a == b + align_from(ls, j));
            assert forall|k: int| 0 <= k < ls.len() - i implies line_image(ls[i + k], #[trigger] a[k]) by {
                if k < j - i {
                    if j - i >= 2 {
                        let mw = max_key_width(ls, i, j);
                        lemma_max_key_width(ls, i, j, i + k);
                        lemma_pad_line(ls[i + k], mw);
                        assert(b[k] == pad_line(ls[i + k], mw));
                    } else {
                        assert(b[k] == ls[i + k]);
                    }
                    assert(a[k] == b[k]);
                } else {
                    assert(a[k] == align_from(ls, j)[k - (j - i)]);
                }
            }
        }
    }
}

// ── Alignment looks only forward ────────────────────────────────────────────

proof fn lemma_block_end_shift(p: Seq<Seq<char>>, q: Seq<Seq<char>>, k: int, ind: nat)
    requires
        0 <= k <= q.len(),
    ensures
        block_end(p + q, p.len() + k, ind) == p.len() + block_end(q, k, ind),
    decreases q.len() - k,
{
    if k < q.len() {
        assert((p + q)[p.len() + k] == q[k]);
        lemma_block_end_shift(p, q, k + 1, ind);
    }
}

proof fn lemma_max_shift(p: Seq<Seq<char>>, q: Seq<Seq<char>>, a: int, b: int)
    requires
        0 <= a <= b <= q.len(),
    ensures
        max_key_width(p + q, p.len() + a, p.len() + b) == max_key_width(q, a, b),
    decreases b - a,
{
    if a < b {
        lemma_max_shift(p, q, a, b - 1);
        assert((p + q)[p.len() + b - 1] == q[b - 1]);
    }
}

/// Alignment from a position depends only on the lines from that position on.
pub proof fn lemma_align_shift(p: Seq<Seq<char>>, q: Seq<Seq<char>>, k: int)
    requires
        0 <= k <= q.len(),
    ensures
        align_from(p + q, p.len() + k) == align_from(q, k),
    decreases q.len() - k,
{
    if k < q.len() {
        let s = p + q;
        let i = p.len() + k;
        assert(s[i] == q[k]);
        let ind = indent_width(q[k]);
        lemma_block_end_shift(p, q, k, ind);
        lemma_block_end(q, k, ind);
        let j = block_end(q, k, ind);
        if j == k {
            lemma_align_shift(p, q, k + 1);
        } else {
            lemma_align_shift(p, q, j);
            lemma_max_shift(p, q, k, j);
            assert(block_lines(s, i, p.len() + j) =~= block_lines(q, k, j));
        }
    }
}

proof fn lemma_block_end_is(s: Seq<Seq<char>>, i: int, e: int, ind: nat)
    requires
        0 <= i <= e <= s.len(),
        forall|k: int| i <= k < e ==> is_simple_property(#[trigger] s[k]) && indent_width(s[k]) == ind,
        e < s.len() ==> !(is_simple_property(s[e]) && indent_width(s[e]) == ind),
    ensures
        block_end(s, i, ind) == e,
    decreases e - i,
{
    if i < e {
        lemma_block_end_is(s, i + 1, e, ind);
    }
}

proof fn lemma_max_equal(s: Seq<Seq<char>>, i: int, j: int, w: nat)
    requires
        i < j,
        forall|k: int| i <= k < j ==> key_width(#[trigger] s[k]) == w,
    ensures
        max_key_width(s, i, j) == w,
    decreases j - i,
{
    assert(key_width(s[j - 1]) == w);
    if i < j - 1 {
        lemma_max_equal(s, i, j - 1, w);
    } else {
        assert(max_key_width(s, i, j - 1) == 0);
    }
}

// ── Alignment is a fixed point ──────────────────────────────────────────────

/// Aligning what alignment produced changes nothing.
pub proof fn lemma_align_from_idem(ls: Seq<Seq<char>>, i: int)
    requires
        0 <= i <= ls.len(),
    ensures
        align(align_from(ls, i)) == align_from(ls, i),
    decreases ls.len() - i,
{
    let t = align_from(ls, i);
    if i == ls.len() {
        assert(align(t) =~= t);
    } else {
        let ind = indent_width(ls[i]);
        let j = block_end(ls, i, ind);
        lemma_block_end(ls, i, ind);
        if j == i {
            let rest = align_from(ls, i + 1);
            lemma_align_from_idem(ls, i + 1);
            assert(t == seq![ls[i]] + rest);
            assert(t[0] == ls[i]);
            lemma_block_end_is(t, 0, 0, indent_width(t[0]));
            lemma_align_shift(seq![ls[i]], rest, 0);
            assert(align(t) =~= seq![ls[i]] + align_from(t, 1));
        } else {
            let b = block_lines(ls, i, j);
            let rest = align_from(ls, j);
            lemma_align_from_idem(ls, j);
            lemma_align_shape(ls, i);
            lemma_align_shape(ls, j);
            assert(t == b + rest);
            let n = j - i;
            assert forall|k: int| 0 <= k < n implies is_simple_property(#[trigger] t[k])
                && indent_width(t[k]) == ind by {
                assert(line_image(ls[i + k], t[k]));
                lemma_line_image(ls[i + k], t[k]);
            }
            if j < ls.len() {
                assert(t[n] == rest[0]);
                assert(line_image(ls[j], rest[0]));
                lemma_line_image(ls[j], rest[0]);
            }
            lemma_block_end_is(t, 0, n, ind);
            assert(indent_width(t[0]) == ind);
            lemma_align_shift(b, rest, 0);
            assert(align_from(t, n) == rest);
            if n >= 2 {
                let mw = max_key_width(ls, i, j);
                assert forall|k: int| 0 <= k < n implies key_width(#[trigger] t[k]) == mw
                    && t[k] == pad_line(ls[i + k], mw) by {
                    lemma_max_key_width(ls, i, j, i + k);
                    lemma_pad_line(ls[i + k], mw);
                    assert(t[k] == b[k]);
                }
                lemma_max_equal(t, 0, n, mw);
                assert forall|k: int| 0 <= k < n implies #[trigger] block_lines(t, 0, n)[k] == b[k] by {
                    lemma_max_key_width(ls, i, j, i + k);
                    lemma_pad_line(ls[i + k], mw);
                }
                assert(block_lines(t, 0, n) =~= b);
            } else {
                assert(block_lines(t, 0, n) =~= b);
            }
            assert(align(t) =~= b + rest);
        }
    }
}

// ── A trailing blank line ───────────────────────────────────────────────────

proof fn lemma_block_end_push_blank(d: Seq<Seq<char>>, i: int, ind: nat)
    requires
        0 <= i <= d.len(),
    ensures
        block_end(d.push(seq![]), i, ind) == block_end(d, i, ind),
    decreases d.len() - i,
{
    let e = d.push(seq![]);
    if i < d.len() {
        assert(e[i] == d[i]);
        lemma_block_end_push_blank(d, i + 1, ind);
    } else {
        lemma_blank_not_property(e[i]);
    }
}

proof fn lemma_max_prefix(d: Seq<Seq<char>>, e: Seq<Seq<char>>, a: int, b: int)
    requires
        0 <= a <= b <= d.len(),
        b <= e.len(),
        forall|k: int| 0 <= k < b ==> d[k] == e[k],
    ensures
        max_key_width(e, a, b) == max_key_width(d, a, b),
    decreases b - a,
{
    if a < b {
        lemma_max_prefix(d, e, a, b - 1);
    }
}

/// A blank line at the end is kept as it is and changes nothing before it.
pub proof fn lemma_align_from_push_blank(d: Seq<Seq<char>>, i: int)
    requires
        0 <= i <= d.len(),
    ensures
        align_from(d.push(seq![]), i) == align_from(d, i).push(seq![]),
    decreases d.len() - i,
{
    let e = d.push(seq![]);
    if i == d.len() {
        lemma_blank_not_property(e[i]);
        lemma_block_end_is(e, i, i, indent_width(e[i]));
        assert(align_from(e, i) =~= seq![e[i]] + align_from(e, i + 1));
        assert(align_from(e, i) =~= align_from(d, i).push(seq![]));
    } else {
        assert(e[i] == d[i]);
        let ind = indent_width(d[i]);
        lemma_block_end_push_blank(d, i, ind);
        lemma_block_end(d, i, ind);
        let j = block_end(d, i, ind);
        if j == i {
            lemma_align_from_push_blank(d, i + 1);
            assert(align_from(e, i) =~= align_from(d, i).push(seq![]));
        } else {
            lemma_align_from_push_blank(d, j);
            lemma_max_prefix(d, e, i, j);
            assert(block_lines(e, i, j) =~= block_lines(d, i, j));
            assert(align_from(e, i) =~= align_from(d, i).push(seq![]));
        }
    }
}

// ── Lines and joining ───────────────────────────────────────────────────────

/// `str::lines` never yields a line with a newline in it.
pub proof fn lemma_lines_no_newline(s: Seq<char>)
    ensures
        forall|k: int| 0 <= k < lines(s).len() ==> no_newline(#[trigger] lines(s)[k]),
    decreases s.len(),
{
    if s.len() > 0 {
        let i = index_of(s, '\n');
        lemma_index_of(s, '\n');
        if i >= 0 {
            lemma_lines_no_newline(s.skip(i + 1));
            let first = strip_cr(s.take(i));
            assert forall|k: int| 0 <= k < first.len() implies first[k] != '\n' by {
                assert(first[k] == s[k]);
            }
            assert forall|k: int| 0 <= k < lines(s).len() implies no_newline(
                #[trigger] lines(s)[k],
            ) by {
                if k > 0 {
                    assert(lines(s)[k] == lines(s.skip(i + 1))[k - 1]);
                }
            }
        }
    }
}

proof fn lemma_join_cons(a: Seq<char>, t: Seq<Seq<char>>, sep: Seq<char>)
    requires
        t.len() >= 1,
    ensures
        join(seq![a] + t, sep) == a + sep + join(t, sep),
    decreases t.len(),
{
    let l = seq![a] + t;
    assert(l.len() >= 2);
    assert(l.last() == t.last());
    if t.len() == 1 {
        assert(l.drop_last() =~= seq![a]);
        assert(join(seq![a], sep) == a);
        assert(join(t, sep) == t[0]);
        assert(join(l, sep) == join(l.drop_last(), sep) + sep + l.last());
        assert(join(l, sep) =~= a + sep + join(t, sep));
    } else {
        lemma_join_cons(a, t.drop_last(), sep);
        assert(l.drop_last() =~= seq![a] + t.drop_last());
        assert(join(l, sep) == join(l.drop_last(), sep) + sep + l.last());
        assert(join(t, sep) == join(t.drop_last(), sep) + sep + t.last());
        assert(join(l, sep) =~= a + sep + join(t, sep));
    }
}

proof fn lemma_index_after(a: Seq<char>, r: Seq<char>)
    requires
        no_newline(a),
    ensures
        index_of(a + seq!['\n'] + r, '\n') == a.len(),
    decreases a.len(),
{
    let s = a + seq!['\n'] + r;
    if a.len() > 0 {
        assert(s[0] == a[0]);
        assert(s.drop_first() =~= a.drop_first() + seq!['\n'] + r);
        lemma_index_after(a.drop_first(), r);
    }
}

/// Every line of `ls` is free of newlines and trailing whitespace.
pub open spec fn all_clean(ls: Seq<Seq<char>>) -> bool {
    forall|k: int| 0 <= k < ls.len() ==> clean_line(#[trigger] ls[k])
}

/// Splitting the joined lines, each followed by a newline, gives the lines back.
pub proof fn lemma_lines_of_joined(h: Seq<Seq<char>>)
    requires
        h.len() >= 1,
        all_clean(h),
    ensures
        lines(join(h, seq!['\n']) + seq!['\n']) == h,
    decreases h.len(),
{
    let a = h[0];
    assert(clean_line(a));
    assert(is_ws('\r'));
    lemma_trim_end(a);
    let nl = seq!['\n'];
    if h.len() == 1 {
        let s = join(h, nl) + nl;
        assert(s =~= a + nl + Seq::<char>::empty());
        lemma_index_after(a, Seq::<char>::empty());
        assert(s.take(a.len() as int) =~= a);
        assert(s.skip(a.len() as int + 1) =~= Seq::<char>::empty());
        if a.len() > 0 {
            assert(a.last() != '\r');
        }
        assert(strip_cr(a) == a);
        assert(lines(Seq::<char>::empty()) == Seq::<Seq<char>>::empty());
        assert(lines(s) =~= h);
    } else {
        let t = h.drop_first();
        assert(h =~= seq![a] + t);
        lemma_join_cons(a, t, nl);
        assert forall|k: int| 0 <= k < t.len() implies clean_line(#[trigger] t[k]) by {
            assert(t[k] == h[k + 1]);
        }
        lemma_lines_of_joined(t);
        let r = join(t, nl) + nl;
        let s = join(h, nl) + nl;
        assert(s =~= a + nl + r);
        lemma_index_after(a, r);
        assert(s.take(a.len() as int) =~= a);
        assert(s.skip(a.len() as int + 1) =~= r);
        if a.len() > 0 {
            assert(a.last() != '\r');
        }
        assert(strip_cr(a) == a);
        assert(lines(s) =~= seq![a] + t);
    }
}

/// The joined text ends with a newline exactly when there are two or more lines
/// and the last is blank.
proof fn lemma_join_ends(h: Seq<Seq<char>>)
    requires
        all_clean(h),
    ensures
        (join(h, seq!['\n']).len() > 0 && join(h, seq!['\n']).last() == '\n') == (h.len() >= 2
            && h.last().len() == 0),
        h.len() >= 2 ==> join(h, seq!['\n']) == join(h.drop_last(), seq!['\n']) + seq!['\n']
            + h.last(),
{
    let nl = seq!['\n'];
    if h.len() == 1 {
        assert(clean_line(h[0]));
        if h[0].len() > 0 {
            assert(h[0].last() == h[0][h[0].len() - 1]);
        }
    } else if h.len() >= 2 {
        assert(clean_line(h.last()));
        if h.last().len() > 0 {
            assert(join(h, nl).last() == h.last().last());
        }
    }
}

// ── Blank lines ─────────────────────────────────────────────────────────────

/// No blank line comes first, and no two blank lines come in a row.
pub open spec fn well_spaced(ls: Seq<Seq<char>>) -> bool {
    &&& ls.len() > 0 ==> ls[0].len() > 0
    &&& forall|k: int| 0 < k < ls.len() ==> !(ls[k - 1].len() == 0 && (#[trigger] ls[k]).len() == 0)
}

/// No two blank lines come in a row.
pub open spec fn no_blank_runs(ls: Seq<Seq<char>>) -> bool {
    forall|k: int| 0 < k < ls.len() ==> !(ls[k - 1].len() == 0 && (#[trigger] ls[k]).len() == 0)
}

proof fn lemma_dedup(ls: Seq<Seq<char>>)
    ensures
        no_blank_runs(dedup_blank(ls)),
        all_clean(ls) ==> all_clean(dedup_blank(ls)),
        ls.len() > 0 ==> dedup_blank(ls).len() > 0 && dedup_blank(ls).last() == ls.last(),
        no_blank_runs(ls) ==> dedup_blank(ls) == ls,
    decreases ls.len(),
{
    if ls.len() > 0 {
        let p = ls.drop_last();
        lemma_dedup(p);
        let d = dedup_blank(ls);
        let dp = dedup_blank(p);
        if ls.last().len() == 0 && ls.len() >= 2 && ls[ls.len() - 2].len() == 0 {
            assert(d == dp);
            assert(dp.last() == p.last());
            assert(p.last().len() == 0);
            assert(p.last() =~= ls.last());
            if all_clean(ls) {
                assert forall|k: int| 0 <= k < p.len() implies clean_line(#[trigger] p[k]) by {
                    assert(p[k] == ls[k]);
                }
            }
            if no_blank_runs(ls) {
                assert(!(ls[ls.len() - 2].len() == 0 && ls[ls.len() - 1].len() == 0));
            }
        } else {
            assert(d == dp.push(ls.last()));
            if all_clean(ls) {
                assert forall|k: int| 0 <= k < p.len() implies clean_line(#[trigger] p[k]) by {
                    assert(p[k] == ls[k]);
                }
                assert(clean_line(ls[ls.len() - 1]));
            }
            if no_blank_runs(ls) {
                assert forall|k: int| 0 < k < p.len() implies !(p[k - 1].len() == 0
                    && (#[trigger] p[k]).len() == 0) by {
                    assert(p[k] == ls[k] && p[k - 1] == ls[k - 1]);
                }
                assert(d =~= ls);
            }
            if ls.len() >= 2 {
                assert(dp.last() == p.last());
            }
        }
    }
}

proof fn lemma_drop_leading(ls: Seq<Seq<char>>)
    requires
        no_blank_runs(ls),
    ensures
        well_spaced(drop_leading_blank(ls)),
        all_clean(ls) ==> all_clean(drop_leading_blank(ls)),
        well_spaced(ls) ==> drop_leading_blank(ls) == ls,
    decreases ls.len(),
{
    if ls.len() > 0 && ls[0].len() == 0 {
        let t = ls.drop_first();
        assert forall|k: int| 0 < k < t.len() implies !(t[k - 1].len() == 0 && (
        #[trigger] t[k]).len() == 0) by {
            assert(t[k] == ls[k + 1] && t[k - 1] == ls[k]);
        }
        if all_clean(ls) {
            assert forall|k: int| 0 <= k < t.len() implies clean_line(#[trigger] t[k]) by {
                assert(t[k] == ls[k + 1]);
            }
        }
        lemma_drop_leading(t);
    }
}

/// Collapsing yields clean lines with no blank line first and no two in a row,
/// and leaves such lines as they are.
pub proof fn lemma_collapse(ls: Seq<Seq<char>>)
    ensures
        well_spaced(collapse(ls)),
        all_clean(ls) ==> all_clean(collapse(ls)),
        well_spaced(ls) ==> collapse(ls) == ls,
{
    lemma_dedup(ls);
    lemma_drop_leading(dedup_blank(ls));
}

/// Alignment keeps lines clean and keeps blank lines where they were.
pub proof fn lemma_align_keeps(ls: Seq<Seq<char>>)
    ensures
        align(ls).len() == ls.len(),
        all_clean(ls) ==> all_clean(align(ls)),
        well_spaced(ls) ==> well_spaced(align(ls)),
        forall|k: int| 0 <= k < ls.len() ==> ((#[trigger] align(ls)[k]).len() == 0) == (ls[k].len() == 0),
{
    lemma_align_shape(ls, 0);
    assert forall|k: int| 0 <= k < ls.len() implies ((#[trigger] align(ls)[k]).len() == 0) == (
    ls[k].len() == 0) && (clean_line(ls[k]) ==> clean_line(align(ls)[k])) by {
        assert(line_image(ls[0 + k], align(ls)[k]));
        lemma_line_image(ls[k], align(ls)[k]);
    }
}

// ── The formatted text ──────────────────────────────────────────────────────

/// The lines that the formatted text is made of: the lines of passes 1 to 3,
/// without a blank last line (its newline is the text's final newline).
pub open spec fn body_lines(raw: Seq<char>) -> Seq<Seq<char>> {
    let g = format_lines(raw);
    if g.len() >= 2 && g.last().len() == 0 {
        g.drop_last()
    } else {
        g
    }
}

proof fn lemma_trim_lines_clean(ls: Seq<Seq<char>>)
    requires
        forall|k: int| 0 <= k < ls.len() ==> no_newline(#[trigger] ls[k]),
    ensures
        all_clean(trim_lines(ls)),
        all_clean(ls) ==> trim_lines(ls) == ls,
{
    assert forall|k: int| 0 <= k < ls.len() implies clean_line(#[trigger] trim_lines(ls)[k]) by {
        lemma_trim_no_newline(ls[k]);
        lemma_trim_end_idem(ls[k]);
    }
    if all_clean(ls) {
        assert forall|k: int| 0 <= k < ls.len() implies #[trigger] trim_lines(ls)[k] == ls[k] by {
            assert(clean_line(ls[k]));
        }
        assert(trim_lines(ls) =~= ls);
    }
}

/// The formatted text is its body lines, each followed by a newline (or a lone
/// newline when there are none); the body lines are clean, well spaced, end
/// with a line that is not blank, and are left as they are by alignment.
pub proof fn lemma_format_body(raw: Seq<char>)
    ensures
        spec_format(raw) == (if body_lines(raw).len() == 0 {
            seq!['\n']
        } else {
            join(body_lines(raw), seq!['\n']) + seq!['\n']
        }),
        all_clean(body_lines(raw)),
        well_spaced(body_lines(raw)),
        body_lines(raw).len() > 0 ==> body_lines(raw).last().len() > 0,
        align(body_lines(raw)) == body_lines(raw),
{
    let nl = seq!['\n'];
    let ls = lines(raw);
    lemma_lines_no_newline(raw);
    lemma_trim_lines_clean(ls);
    let c = collapse(trim_lines(ls));
    lemma_collapse(trim_lines(ls));
    let g = align(c);
    lemma_align_keeps(c);
    lemma_align_from_idem(c, 0);
    assert(g == format_lines(raw));
    let h = body_lines(raw);
    lemma_join_ends(g);
    if g.len() >= 2 && g.last().len() == 0 {
        assert(g.last() =~= Seq::<char>::empty());
        assert(g =~= h.push(seq![]));
        lemma_align_from_push_blank(h, 0);
        assert(align(h).push(seq![]) == h.push(seq![]));
        assert(align(h) =~= align(h).push(seq![]).drop_last());
        assert(h.push(seq![]).drop_last() =~= h);
        assert(!(g[g.len() - 2].len() == 0 && g[g.len() - 1].len() == 0));
        assert(h.last() == g[g.len() - 2]);
        assert forall|k: int| 0 <= k < h.len() implies clean_line(#[trigger] h[k]) by {
            assert(h[k] == g[k]);
        }
        assert forall|k: int| 0 < k < h.len() implies !(h[k - 1].len() == 0 && (
        #[trigger] h[k]).len() == 0) by {
            assert(h[k] == g[k] && h[k - 1] == g[k - 1]);
        }
        assert(h[0] == g[0]);
        assert(spec_format(raw) == join(g, nl));
        assert(join(g, nl) =~= join(h, nl) + nl);
    } else {
        if g.len() == 1 {
            assert(g.last() == g[0]);
        }
        assert(h == g);
        if g.len() == 0 {
            assert(join(g, nl) == Seq::<char>::empty());
            assert(spec_format(raw) =~= nl);
        }
    }
}

/// Formatting already formatted text changes nothing.
pub proof fn format_is_idempotent(raw: Seq<char>)
    ensures
        spec_format(spec_format(raw)) == spec_format(raw),
{
    let nl = seq!['\n'];
    let f = spec_format(raw);
    let h = body_lines(raw);
    lemma_format_body(raw);
    if h.len() == 0 {
        let one: Seq<Seq<char>> = seq![Seq::<char>::empty()];
        assert(join(one, nl) == Seq::<char>::empty());
        assert(f =~= join(one, nl) + nl);
        assert(clean_line(one[0]));
        lemma_lines_of_joined(one);
        assert(lines(f) == one);
        lemma_trim_lines_clean(one);
        assert(trim_lines(one) == one);
        assert(dedup_blank(one.drop_last()) == Seq::<Seq<char>>::empty());
        assert(dedup_blank(one) =~= one);
        assert(one.drop_first() =~= Seq::<Seq<char>>::empty());
        assert(drop_leading_blank(one.drop_first()) == Seq::<Seq<char>>::empty());
        assert(collapse(one) == Seq::<Seq<char>>::empty());
        assert(align(Seq::<Seq<char>>::empty()) =~= Seq::<Seq<char>>::empty());
        assert(format_lines(f) == Seq::<Seq<char>>::empty());
        assert(body_lines(f) == Seq::<Seq<char>>::empty());
        lemma_format_body(f);
    } else {
        lemma_lines_of_joined(h);
        assert(lines(f) == h);
        lemma_lines_no_newline(f);
        lemma_trim_lines_clean(h);
        lemma_collapse(h);
        assert(format_lines(f) == h);
        lemma_join_ends(h);
        assert(h.len() == 1 ==> h.last() == h[0]);
        assert(!(h.len() >= 2 && h.last().len() == 0));
        assert(body_lines(f) == h);
        lemma_format_body(f);
    }
}

/// The formatted text ends with exactly one newline.
pub proof fn format_ends_with_one_newline(raw: Seq<char>)
    ensures
        spec_format(raw).len() > 0,
        spec_format(raw).last() == '\n',
        spec_format(raw).len() >= 2 ==> spec_format(raw)[spec_format(raw).len() - 2] != '\n',
{
    let nl = seq!['\n'];
    let h = body_lines(raw);
    lemma_format_body(raw);
    if h.len() > 0 {
        lemma_join_ends(h);
        assert(h.len() == 1 ==> h.last() == h[0]);
        let j = join(h, nl);
        let f = spec_format(raw);
        assert(f =~= j + nl);
        if j.len() > 0 {
            assert(f[f.len() - 2] == j.last());
        }
    }
}

/// No line of the formatted text ends with whitespace, and no two of its lines
/// are blank in a row.
pub proof fn format_lines_are_clean(raw: Seq<char>)
    ensures
        forall|k: int|
            0 <= k < lines(spec_format(raw)).len() ==> trim_end(#[trigger] lines(spec_format(raw))[k])
                == lines(spec_format(raw))[k],
        no_blank_runs(lines(spec_format(raw))),
{
    let nl = seq!['\n'];
    let h = body_lines(raw);
    let f = spec_format(raw);
    lemma_format_body(raw);
    if h.len() == 0 {
        let one: Seq<Seq<char>> = seq![Seq::<char>::empty()];
        assert(join(one, nl) == Seq::<char>::empty());
        assert(f =~= join(one, nl) + nl);
        assert(clean_line(one[0]));
        lemma_lines_of_joined(one);
    } else {
        lemma_lines_of_joined(h);
        assert forall|k: int| 0 <= k < h.len() implies trim_end(#[trigger] h[k]) == h[k] by {
            assert(clean_line(h[k]));
        }
    }
}

// ── Columns ─────────────────────────────────────────────────────────────────

proof fn lemma_align_columns(ls: Seq<Seq<char>>, i: int, k: int)
    requires
        0 <= i <= k,
        k + 1 < ls.len(),
        is_simple_property(ls[k]),
        is_simple_property(ls[k + 1]),
        indent_width(ls[k]) == indent_width(ls[k + 1]),
    ensures
        key_width(align_from(ls, i)[k - i]) == key_width(align_from(ls, i)[k + 1 - i]),
    decreases ls.len() - i,
{
    let ind = indent_width(ls[i]);
    let j = block_end(ls, i, ind);
    lemma_block_end(ls, i, ind);
    let a = align_from(ls, i);
    if j == i {
        assert(a == seq![ls[i]] + align_from(ls, i + 1));
        if k == i {
            assert(false);
        }
        lemma_align_columns(ls, i + 1, k);
        lemma_align_shape(ls, i + 1);
        assert(a[k - i] == align_from(ls, i + 1)[k - (i + 1)]);
        assert(a[k + 1 - i] == align_from(ls, i + 1)[k + 1 - (i + 1)]);
    } else {
        let b = block_lines(ls, i, j);
        assert(a == b + align_from(ls, j));
        lemma_align_shape(ls, j);
        if k + 1 < j {
            let mw = max_key_width(ls, i, j);
            lemma_max_key_width(ls, i, j, k);
            lemma_max_key_width(ls, i, j, k + 1);
            lemma_pad_line(ls[k], mw);
            lemma_pad_line(ls[k + 1], mw);
            assert(a[k - i] == b[k - i]);
            assert(a[k + 1 - i] == b[k + 1 - i]);
        } else if k + 1 == j {
            assert(indent_width(ls[k]) == ind);
            assert(false);
        } else {
            lemma_align_columns(ls, j, k);
            assert(a[k - i] == align_from(ls, j)[k - j]);
            assert(a[k + 1 - i] == align_from(ls, j)[k + 1 - j]);
        }
    }
}

/// Two consecutive property lines of the formatted text at one indentation have
/// keys of one width, so their ` = ` stand in one column.
pub proof fn format_aligns_properties(raw: Seq<char>)
    ensures
        forall|k: int|
            0 <= k && k + 1 < lines(spec_format(raw)).len() && is_simple_property(
                #[trigger] lines(spec_format(raw))[k],
            ) && is_simple_property(lines(spec_format(raw))[k + 1]) && indent_width(
                lines(spec_format(raw))[k],
            ) == indent_width(lines(spec_format(raw))[k + 1]) ==> key_width(
                lines(spec_format(raw))[k],
            ) == key_width(lines(spec_format(raw))[k + 1]),
{
    let nl = seq!['\n'];
    let h = body_lines(raw);
    let f = spec_format(raw);
    lemma_format_body(raw);
    if h.len() == 0 {
        let one: Seq<Seq<char>> = seq![Seq::<char>::empty()];
        assert(join(one, nl) == Seq::<char>::empty());
        assert(f =~= join(one, nl) + nl);
        assert(clean_line(one[0]));
        lemma_lines_of_joined(one);
    } else {
        lemma_lines_of_joined(h);
        let c = collapse(trim_lines(lines(raw)));
        let g = align(c);
        assert(g == format_lines(raw));
        lemma_align_shape(c, 0);
        assert forall|k: int|
            0 <= k && k + 1 < h.len() && is_simple_property(#[trigger] h[k]) && is_simple_property(
                h[k + 1],
            ) && indent_width(h[k]) == indent_width(h[k + 1]) implies key_width(h[k]) == key_width(
            h[k + 1],
        ) by {
            assert(h[k] == g[k] && h[k + 1] == g[k + 1]);
            assert(line_image(c[0 + k], g[k]));
            assert(line_image(c[0 + k + 1], g[k + 1]));
            lemma_line_image(c[k], g[k]);
            lemma_line_image(c[k + 1], g[k + 1]);
            lemma_align_columns(c, 0, k);
        }
    }
}

// ── Lines that formatting keeps ─────────────────────────────────────────────

proof fn lemma_lines_append(p: Seq<char>, r: Seq<char>)
    requires
        p.len() > 0,
        p.last() == '\n',
    ensures
        lines(p + r) == lines(p) + lines(r),
    decreases p.len(),
{
    let s = p + r;
    let i = index_of(p, '\n');
    lemma_index_of(p, '\n');
    assert(p[p.len() - 1] == '\n');
    lemma_index_of(s, '\n');
    assert(index_of(s, '\n') == i) by {
        let j = index_of(s, '\n');
        assert(s[i] == '\n');
        if j < 0 || j > i {
            assert(s[i] != '\n');
        }
        if 0 <= j < i {
            assert(s[j] == p[j]);
        }
    }
    assert(s.take(i) =~= p.take(i));
    let q = p.skip(i + 1);
    assert(s.skip(i + 1) =~= q + r);
    if q.len() == 0 {
        assert(q + r =~= r);
        assert(lines(q) == Seq::<Seq<char>>::empty());
    } else {
        assert(q.last() == p.last());
        lemma_lines_append(q, r);
    }
    assert(lines(s) =~= lines(p) + lines(r));
}

proof fn lemma_lines_header(l: Seq<char>, q: Seq<char>)
    requires
        clean_line(l),
    ensures
        lines(l + seq!['\n'] + q) == seq![l] + lines(q),
{
    let s = l + seq!['\n'] + q;
    lemma_index_after(l, q);
    lemma_trim_end(l);
    assert(is_ws('\r'));
    assert(s.take(l.len() as int) =~= l);
    assert(s.skip(l.len() as int + 1) =~= q);
    if l.len() > 0 {
        assert(l.last() != '\r');
    }
}

proof fn lemma_dedup_keeps(ls: Seq<Seq<char>>, x: Seq<char>)
    requires
        ls.contains(x),
        x.len() > 0,
    ensures
        dedup_blank(ls).contains(x),
    decreases ls.len(),
{
    let p = ls.drop_last();
    if ls.last() == x {
        assert(dedup_blank(ls) == dedup_blank(p).push(x));
        assert(dedup_blank(ls)[dedup_blank(p).len() as int] == x);
    } else {
        let t = choose|t: int| 0 <= t < ls.len() && ls[t] == x;
        assert(p[t] == x);
        lemma_dedup_keeps(p, x);
        let d = dedup_blank(p);
        let u = choose|u: int| 0 <= u < d.len() && d[u] == x;
        if dedup_blank(ls) != d {
            assert(dedup_blank(ls) == d.push(ls.last()));
            assert(dedup_blank(ls)[u] == x);
        }
    }
}

proof fn lemma_drop_leading_keeps(ls: Seq<Seq<char>>, x: Seq<char>)
    requires
        ls.contains(x),
        x.len() > 0,
    ensures
        drop_leading_blank(ls).contains(x),
    decreases ls.len(),
{
    if ls[0].len() == 0 {
        let t = choose|t: int| 0 <= t < ls.len() && ls[t] == x;
        assert(ls.drop_first()[t - 1] == x);
        lemma_drop_leading_keeps(ls.drop_first(), x);
    }
}

/// A line without `=` is not a property line.
pub proof fn lemma_no_equals_not_property(l: Seq<char>)
    requires
        forall|k: int| 0 <= k < l.len() ==> l[k] != '=',
    ensures
        !is_simple_property(l),
{
    let t = trim(l);
    lemma_trim_start(l);
    lemma_trim_end(trim_start(l));
    let p = find(t, eq_sep());
    lemma_find_from(t, eq_sep(), 0);
    if p >= 0 {
        assert(t.subrange(p, p + 3)[1] == '=');
        let off = l.len() - trim_start(l).len();
        assert(t[p + 1] == trim_start(l)[p + 1]);
        assert(trim_start(l)[p + 1] == l[off + p + 1]);
    }
}

/// A whole line of the raw text that is not blank, has no trailing whitespace
/// and is not a property line is a line of the formatted text.
pub proof fn format_keeps_plain_lines(p: Seq<char>, l: Seq<char>, q: Seq<char>)
    requires
        p.len() == 0 || p.last() == '\n',
        l.len() > 0,
        clean_line(l),
        !is_simple_property(l),
    ensures
        lines(spec_format(p + l + seq!['\n'] + q)).contains(l),
{
    let raw = p + l + seq!['\n'] + q;
    let tail = l + seq!['\n'] + q;
    lemma_lines_header(l, q);
    if p.len() == 0 {
        assert(raw =~= tail);
    } else {
        assert(raw =~= p + tail);
        lemma_lines_append(p, tail);
    }
    let ls = lines(raw);
    assert(ls == lines(p) + (seq![l] + lines(q)));
    let k = lines(p).len() as int;
    assert(ls[k] == l);
    let tl = trim_lines(ls);
    assert(tl[k] == trim_end(l));
    assert(tl.contains(l));
    lemma_dedup_keeps(tl, l);
    lemma_drop_leading_keeps(dedup_blank(tl), l);
    let c = collapse(tl);
    assert(c.contains(l));
    let u = choose|u: int| 0 <= u < c.len() && c[u] == l;
    lemma_align_shape(c, 0);
    let g = align(c);
    assert(line_image(c[0 + u], g[u]));
    assert(g[u] == l);
    assert(g == format_lines(raw));
    let h = body_lines(raw);
    lemma_format_body(raw);
    if g.len() >= 2 && g.last().len() == 0 {
        assert(u < g.len() - 1);
        assert(h[u] == l);
    } else {
        assert(h[u] == l);
    }
    lemma_lines_of_joined(h);
    assert(lines(spec_format(raw)) == h);
}

} // verus!
