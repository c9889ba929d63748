//! Post-processing of raw `.mdix` source into clean, consistently laid out DixScript.
//!
//! Passes, in order:
//!   1. trim trailing whitespace on every line;
//!   2. collapse runs of blank lines into one, and drop leading blank lines;
//!   3. align the ` = ` of consecutive `key = value` lines at the same indentation;
//!   4. end the text with exactly one newline.
use vstd::prelude::*;
use crate::text::{
    append_chars, byte_len, byte_len_of, chars_of, contains_char, eq_sep, find, find_eq_sep, index_of,
    join, join_chars, lemma_byte_len_prefix, lemma_find_from, lemma_index_of, lemma_str_byte_len_fits,
    lemma_trim_end, lemma_trim_start, lines, push_repeat, repeat_char, slice_chars, split_lines,
    string_from_chars, strip_cr, trim, trim_end, trim_end_len, trim_start, trim_start_pos,
};

verus! {

broadcast use vstd::seq_lib::group_seq_properties;

// ── Specification ────────────────────────────────────────────────────────────

/// Pass 2a: a blank line that follows a blank line is dropped.
pub open spec fn dedup_blank(ls: Seq<Seq<char>>) -> Seq<Seq<char>>
    decreases ls.len(),
{
    if ls.len() == 0 {
        seq![]
    } else {
        let prev = dedup_blank(ls.drop_last());
        if ls.last().len() == 0 && ls.len() >= 2 && ls[ls.len() - 2].len() == 0 {
            prev
        } else {
            prev.push(ls.last())
        }
    }
}

/// Pass 2b: leading blank lines are dropped.
pub open spec fn drop_leading_blank(ls: Seq<Seq<char>>) -> Seq<Seq<char>>
    decreases ls.len(),
{
    if ls.len() > 0 && ls[0].len() == 0 {
        drop_leading_blank(ls.drop_first())
    } else {
        ls
    }
}

/// Pass 2.
pub open spec fn collapse(ls: Seq<Seq<char>>) -> Seq<Seq<char>> {
    drop_leading_blank(dedup_blank(ls))
}

/// Number of bytes of leading whitespace.
pub open spec fn indent_width(l: Seq<char>) -> nat {
    (byte_len(l) - byte_len(trim_start(l))) as nat
}

/// A line of the shape `<ws><key> = <value>` whose key holds no `(`, `[` or `"`.
pub open spec fn is_simple_property(l: Seq<char>) -> bool {
    let t = trim(l);
    let p = find(t, eq_sep());
    &&& t.len() > 0
    &&& p >= 0
    &&& !t.take(p).contains('(')
    &&& !t.take(p).contains('[')
    &&& !t.take(p).contains('"')
}

/// The key of a property line (the trimmed text before the first ` = `).
pub open spec fn key_of(l: Seq<char>) -> Seq<char> {
    trim(l).take(find(trim(l), eq_sep()))
}

/// The value of a property line (the trimmed text after the first ` = `).
pub open spec fn value_of(l: Seq<char>) -> Seq<char> {
    trim(l).skip(find(trim(l), eq_sep()) + 3)
}

/// Byte length of the key of a property line.
pub open spec fn key_width(l: Seq<char>) -> nat {
    byte_len(key_of(l))
}

/// A property line re-laid with its ` = ` after a key column of `w` bytes.
pub open spec fn pad_line(l: Seq<char>, w: nat) -> Seq<char> {
    repeat_char(' ', indent_width(l)) + key_of(l) + repeat_char(' ', (w - key_width(l)) as nat)
        + eq_sep() + value_of(l)
}

/// End of the run of property lines that starts at `i` and share indentation `ind`.
pub open spec fn block_end(ls: Seq<Seq<char>>, i: int, ind: nat) -> int
    decreases ls.len() - i,
{
    if 0 <= i < ls.len() && is_simple_property(ls[i]) && indent_width(ls[i]) == ind {
        block_end(ls, i + 1, ind)
    } else {
        i
    }
}

/// Widest key among `ls[i..j]`.
pub open spec fn max_key_width(ls: Seq<Seq<char>>, i: int, j: int) -> nat
    decreases j - i,
{
    if j <= i {
        0
    } else {
        let m = max_key_width(ls, i, j - 1);
        let w = key_width(ls[j - 1]);
        if w > m {
            w
        } else {
            m
        }
    }
}

pub proof fn lemma_block_end(ls: Seq<Seq<char>>, i: int, ind: nat)
    requires
        0 <= i <= ls.len(),
    ensures
        i <= block_end(ls, i, ind) <= ls.len(),
        forall|k: int|
            i <= k < block_end(ls, i, ind) ==> is_simple_property(#[trigger] ls[k])
                && indent_width(ls[k]) == ind,
        block_end(ls, i, ind) < ls.len() ==> !(is_simple_property(ls[block_end(ls, i, ind)])
            && indent_width(ls[block_end(ls, i, ind)]) == ind),
    decreases ls.len() - i,
{
    if i < ls.len() && is_simple_property(ls[i]) && indent_width(ls[i]) == ind {
        lemma_block_end(ls, i + 1, ind);
    }
}

/// The lines produced for the block `ls[i..j]`.
pub open spec fn block_lines(ls: Seq<Seq<char>>, i: int, j: int) -> Seq<Seq<char>> {
    if j - i < 2 {
        ls.subrange(i, j)
    } else {
        Seq::new((j - i) as nat, |k: int| pad_line(ls[i + k], max_key_width(ls, i, j)))
    }
}

/// Pass 3, from line `i` on: each maximal run of property lines at one indentation
/// is padded to a common key column when it has two or more lines; every other
/// line is kept as it is.
pub open spec fn align_from(ls: Seq<Seq<char>>, i: int) -> Seq<Seq<char>>
    decreases ls.len() - i,
{
    if i < 0 || i >= ls.len() {
        seq![]
    } else {
        let j = block_end(ls, i, indent_width(ls[i]));
        proof {
            lemma_block_end(ls, i, indent_width(ls[i]));
        }
        if j == i {
            seq![ls[i]] + align_from(ls, i + 1)
        } else {
            block_lines(ls, i, j) + align_from(ls, j)
        }
    }
}

/// Pass 3.
pub open spec fn align(ls: Seq<Seq<char>>) -> Seq<Seq<char>> {
    align_from(ls, 0)
}

/// Pass 1.
pub open spec fn trim_lines(ls: Seq<Seq<char>>) -> Seq<Seq<char>> {
    ls.map_values(|l: Seq<char>| trim_end(l))
}

/// The lines after passes 1 to 3.
pub open spec fn format_lines(raw: Seq<char>) -> Seq<Seq<char>> {
    align(collapse(trim_lines(lines(raw))))
}

/// The formatted text: the lines of passes 1 to 3 joined by `\n`, with a `\n`
/// added when the result does not already end with one.
pub open spec fn spec_format(raw: Seq<char>) -> Seq<char> {
    let out = join(format_lines(raw), seq!['\n']);
    if out.len() > 0 && out.last() == '\n' {
        out
    } else {
        out.push('\n')
    }
}

// ── Byte bounds ──────────────────────────────────────────────────────────────

/// Every line of `ls` has at most `b` bytes.
pub open spec fn lines_within(ls: Seq<Seq<char>>, b: nat) -> bool {
    forall|k: int| 0 <= k < ls.len() ==> byte_len(#[trigger] ls[k]) <= b
}

proof fn lemma_lines_within(s: Seq<char>)
    ensures
        lines_within(lines(s), byte_len(s)),
    decreases s.len(),
{
    if s.len() > 0 {
        let i = index_of(s, '\n');
        lemma_index_of(s, '\n');
        if i >= 0 {
            lemma_lines_within(s.skip(i + 1));
            lemma_byte_len_prefix(s, i);
            lemma_byte_len_prefix(s, i + 1);
            let first = strip_cr(s.take(i));
            if s.take(i).len() > 0 && s.take(i).last() == '\r' {
                lemma_byte_len_prefix(s.take(i), i - 1);
                assert(s.take(i).take(i - 1) =~= s.take(i).drop_last());
            }
            assert forall|k: int| 0 <= k < lines(s).len() implies byte_len(
                #[trigger] lines(s)[k],
            ) <= byte_len(s) by {
                if k > 0 {
                    assert(lines(s)[k] == lines(s.skip(i + 1))[k - 1]);
                }
            }
        }
    }
}

proof fn lemma_trim_end_within(ls: Seq<Seq<char>>, b: nat)
    requires
        lines_within(ls, b),
    ensures
        lines_within(trim_lines(ls), b),
{
    assert forall|k: int| 0 <= k < ls.len() implies byte_len(
        #[trigger] trim_lines(ls)[k],
    ) <= b by {
        lemma_trim_end(ls[k]);
        lemma_byte_len_prefix(ls[k], trim_end(ls[k]).len() as int);
    }
}

proof fn lemma_dedup_within(ls: Seq<Seq<char>>, b: nat)
    requires
        lines_within(ls, b),
    ensures
        lines_within(dedup_blank(ls), b),
    decreases ls.len(),
{
    if ls.len() > 0 {
        lemma_dedup_within(ls.drop_last(), b);
    }
}

proof fn lemma_drop_leading_within(ls: Seq<Seq<char>>, b: nat)
    requires
        lines_within(ls, b),
    ensures
        lines_within(drop_leading_blank(ls), b),
    decreases ls.len(),
{
    if ls.len() > 0 && ls[0].len() == 0 {
        lemma_drop_leading_within(ls.drop_first(), b);
    }
}

// ── Implementation ──────────────────────────────────────────────────────────

fn copy_line(l: &Vec<char>) -> (r: Vec<char>)
    ensures
        r@ == l@,
{
    slice_chars(l, 0, l.len())
}

/// The lines of a vector of lines, as a sequence.
pub open spec fn lines_view(v: Seq<Vec<char>>) -> Seq<Seq<char>> {
    v.map_values(|l: Vec<char>| l@)
}

/// Pass 2.
fn collapse_blank_lines(ls: &Vec<Vec<char>>) -> (r: Vec<Vec<char>>)
    ensures
        lines_view(r@) == collapse(lines_view(ls@)),
{
    let ghost lv = lines_view(ls@);
    let mut out: Vec<Vec<char>> = Vec::new();
    let mut prev_blank = false;
    let mut i: usize = 0;
    while i < ls.len()
        invariant
            i <= ls.len(),
            lv == lines_view(ls@),
            lines_view(out@) == dedup_blank(lv.take(i as int)),
            prev_blank == (i > 0 && lv[i - 1].len() == 0),
        decreases ls.len() - i,
    {
        proof {
            assert(lv.take(i + 1).drop_last() =~= lv.take(i as int));
        }
        if ls[i].len() == 0 {
            if !prev_blank {
                out.push(copy_line(&ls[i]));
                assert(lines_view(out@) =~= dedup_blank(lv.take(i as int)).push(lv[i as int]));
            }
            prev_blank = true;
        } else {
            out.push(copy_line(&ls[i]));
            assert(lines_view(out@) =~= dedup_blank(lv.take(i as int)).push(lv[i as int]));
            prev_blank = false;
        }
        i = i + 1;
    }
    assert(lv.take(i as int) =~= lv);
    let ghost d = lines_view(out@);
    let mut start: usize = 0;
    while start < out.len() && out[start].len() == 0
        invariant
            start <= out.len(),
            d == lines_view(out@),
            drop_leading_blank(d) == drop_leading_blank(d.skip(start as int)),
        decreases out.len() - start,
    {
        assert(d.skip(start as int).drop_first() =~= d.skip(start + 1));
        start = start + 1;
    }
    let mut r: Vec<Vec<char>> = Vec::new();
    let mut k = start;
    while k < out.len()
        invariant
            start <= k <= out.len(),
            d == lines_view(out@),
            lines_view(r@) == d.subrange(start as int, k as int),
        decreases out.len() - k,
    {
        let ghost pr = lines_view(r@);
        let c = copy_line(&out[k]);
        r.push(c);
        assert(d[k as int] == out@[k as int]@);
        assert(lines_view(r@) =~= pr.push(d[k as int]));
        assert(lines_view(r@) =~= d.subrange(start as int, k + 1));
        k = k + 1;
    }
    assert(d.skip(start as int) =~= d.subrange(start as int, k as int));
    r
}

/// Byte count of the leading whitespace of `l`.
fn leading_spaces(l: &Vec<char>) -> (n: usize)
    requires
        byte_len(l@) <= usize::MAX,
    ensures
        n as nat == indent_width(l@),
{
    let b = trim_start_pos(l);
    let rest = slice_chars(l, b, l.len());
    proof {
        assert(rest@ =~= l@.skip(b as int));
        lemma_byte_len_prefix(l@, b as int);
    }
    let total = byte_len_of(l);
    let tail = byte_len_of(&rest);
    total - tail
}

/// The trimmed line.
fn trimmed(l: &Vec<char>) -> (t: Vec<char>)
    ensures
        t@ == trim(l@),
{
    let b = trim_start_pos(l);
    let s = slice_chars(l, b, l.len());
    assert(s@ =~= trim_start(l@));
    let e = trim_end_len(&s);
    slice_chars(&s, 0, e)
}

proof fn lemma_trim_within(l: Seq<char>)
    ensures
        byte_len(trim(l)) <= byte_len(l),
        byte_len(trim_start(l)) <= byte_len(l),
{
    lemma_trim_start(l);
    lemma_byte_len_prefix(l, l.len() - trim_start(l).len());
    lemma_trim_end(trim_start(l));
    lemma_byte_len_prefix(trim_start(l), trim_end(trim_start(l)).len() as int);
}

/// Whether `l` is a simple `key = value` line.
fn is_property_line(l: &Vec<char>) -> (r: bool)
    ensures
        r == is_simple_property(l@),
{
    let t = trimmed(l);
    if t.len() == 0 {
        return false;
    }
    match find_eq_sep(&t) {
        None => false,
        Some(p) => {
            let lhs = slice_chars(&t, 0, p);
            !contains_char(&lhs, '(') && !contains_char(&lhs, '[') && !contains_char(&lhs, '"')
        },
    }
}

/// Byte length of the key of a property line.
fn key_len(l: &Vec<char>) -> (n: usize)
    requires
        is_simple_property(l@),
        byte_len(l@) <= usize::MAX,
    ensures
        n as nat == key_width(l@),
        n as nat <= byte_len(l@),
{
    let t = trimmed(l);
    let p = match find_eq_sep(&t) {
        Some(p) => p,
        None => 0,
    };
    let key = slice_chars(&t, 0, p);
    proof {
        lemma_trim_within(l@);
        lemma_byte_len_prefix(t@, p as int);
        assert(key@ =~= key_of(l@));
    }
    byte_len_of(&key)
}

/// Re-lays a property line with its key padded to `w` bytes.
fn pad_equals(l: &Vec<char>, w: usize) -> (r: Vec<char>)
    requires
        is_simple_property(l@),
        byte_len(l@) <= usize::MAX,
        key_width(l@) <= w,
    ensures
        r@ == pad_line(l@, w as nat),
{
    let indent = leading_spaces(l);
    let t = trimmed(l);
    let p = match find_eq_sep(&t) {
        Some(p) => p,
        None => 0,
    };
    proof {
        lemma_find_from(t@, eq_sep(), 0);
    }
    let key = slice_chars(&t, 0, p);
    let value = slice_chars(&t, p + 3, t.len());
    proof {
        lemma_trim_within(l@);
        lemma_byte_len_prefix(t@, p as int);
        assert(key@ =~= key_of(l@));
        assert(value@ =~= value_of(l@));
    }
    let kl = byte_len_of(&key);
    let mut r: Vec<char> = Vec::new();
    push_repeat(&mut r, ' ', indent);
    append_chars(&mut r, &key);
    push_repeat(&mut r, ' ', w - kl);
    r.push(' ');
    r.push('=');
    r.push(' ');
    append_chars(&mut r, &value);
    assert(r@ =~= pad_line(l@, w as nat));
    r
}

/// Pass 3.
fn align_equals(ls: &Vec<Vec<char>>) -> (r: Vec<Vec<char>>)
    requires
        lines_within(lines_view(ls@), usize::MAX as nat),
    ensures
        lines_view(r@) == align(lines_view(ls@)),
{
    let ghost lv = lines_view(ls@);
    let mut out: Vec<Vec<char>> = Vec::new();
    let mut i: usize = 0;
    while i < ls.len()
        invariant
            i <= ls.len(),
            lv == lines_view(ls@),
            lines_within(lv, usize::MAX as nat),
            lines_view(out@) + align_from(lv, i as int) == align(lv),
        decreases ls.len() - i,
    {
        assert(byte_len(lv[i as int]) <= usize::MAX);
        let indent = leading_spaces(&ls[i]);
        let mut j = i;
        let mut more = true;
        while more && j < ls.len()
            invariant
                i <= j <= ls.len(),
                lv == lines_view(ls@),
                lines_within(lv, usize::MAX as nat),
                block_end(lv, i as int, indent as nat) == block_end(lv, j as int, indent as nat),
                !more ==> j < ls.len() && !(is_simple_property(lv[j as int]) && indent_width(
                    lv[j as int],
                ) == indent),
            decreases ls.len() - j + (if more { 1int } else { 0int }),
        {
            assert(byte_len(lv[j as int]) <= usize::MAX);
            assert(lv[j as int] == ls@[j as int]@);
            if is_property_line(&ls[j]) && leading_spaces(&ls[j]) == indent {
                j = j + 1;
            } else {
                more = false;
            }
        }
        proof {
            lemma_block_end(lv, i as int, indent as nat);
            if j < ls.len() {
                assert(block_end(lv, j as int, indent as nat) == j);
            }
            assert(lv[i as int] == ls@[i as int]@);
        }
        let ghost prev = lines_view(out@);
        if j == i {
            out.push(copy_line(&ls[i]));
            proof {
                assert(lines_view(out@) =~= prev + seq![lv[i as int]]);
            }
            i = i + 1;
        } else if j - i < 2 {
            out.push(copy_line(&ls[i]));
            proof {
                assert(lines_view(out@) =~= prev + lv.subrange(i as int, j as int));
            }
            i = j;
        } else {
            let mut m: usize = 0;
            let mut k = i;
            while k < j
                invariant
                    i <= k <= j <= ls.len(),
                    lv == lines_view(ls@),
                    lines_within(lv, usize::MAX as nat),
                    forall|q: int| i <= q < j ==> is_simple_property(#[trigger] lv[q]),
                    m as nat == max_key_width(lv, i as int, k as int),
                decreases j - k,
            {
                assert(is_simple_property(lv[k as int]));
                assert(byte_len(lv[k as int]) <= usize::MAX);
                assert(lv[k as int] == ls@[k as int]@);
                let w = key_len(&ls[k]);
                if w > m {
                    m = w;
                }
                k = k + 1;
            }
            let ghost bl = block_lines(lv, i as int, j as int);
            let mut k = i;
            while k < j
                invariant
                    i <= k <= j <= ls.len(),
                    j - i >= 2,
                    lv == lines_view(ls@),
                    lines_within(lv, usize::MAX as nat),
                    forall|q: int| i <= q < j ==> is_simple_property(#[trigger] lv[q]),
                    m as nat == max_key_width(lv, i as int, j as int),
                    bl == block_lines(lv, i as int, j as int),
                    lines_view(out@) == prev + bl.take(k - i),
                decreases j - k,
            {
                assert(is_simple_property(lv[k as int]));
                assert(byte_len(lv[k as int]) <= usize::MAX);
                proof {
                    lemma_max_key_width(lv, i as int, j as int, k as int);
                }
                assert(lv[k as int] == ls@[k as int]@);
                let padded = pad_equals(&ls[k], m);
                let ghost po = lines_view(out@);
                out.push(padded);
                proof {
                    assert(lines_view(out@) =~= po.push(padded@));
                    assert(bl[k - i] == pad_line(lv[k as int], m as nat));
                    assert(bl.take(k + 1 - i) =~= bl.take(k - i).push(bl[k - i]));
                    assert(lines_view(out@) =~= prev + bl.take(k + 1 - i));
                }
                k = k + 1;
            }
            proof {
                assert(bl.take(j - i) =~= bl);
            }
            i = j;
        }
    }
    assert(lines_view(out@) =~= lines_view(out@) + align_from(lv, i as int));
    out
}

pub proof fn lemma_max_key_width(ls: Seq<Seq<char>>, i: int, j: int, k: int)
    requires
        i <= k < j,
    ensures
        key_width(ls[k]) <= max_key_width(ls, i, j),
    decreases j - i,
{
    if k < j - 1 {
        lemma_max_key_width(ls, i, j - 1, k);
    }
}

/// Formats raw `.mdix` source into clean DixScript.
pub fn format(raw: &str) -> (r: String)
    ensures
        r@ == spec_format(raw@),
{
    let bytes = raw.as_bytes();
    proof {
        lemma_str_byte_len_fits(raw, bytes);
    }
    let chars = chars_of(raw);
    let ls = split_lines(&chars);
    let mut trimmed_lines: Vec<Vec<char>> = Vec::new();
    let mut i: usize = 0;
    while i < ls.len()
        invariant
            i <= ls.len(),
            ls@.len() == lines(chars@).len(),
            forall|k: int| 0 <= k < ls@.len() ==> #[trigger] ls@[k]@ == lines(chars@)[k],
            lines_view(trimmed_lines@) == trim_lines(lines(chars@).take(i as int)),
        decreases ls.len() - i,
    {
        let e = trim_end_len(&ls[i]);
        let t = slice_chars(&ls[i], 0, e);
        let ghost pt = lines_view(trimmed_lines@);
        trimmed_lines.push(t);
        proof {
            assert(lines_view(trimmed_lines@) =~= pt.push(t@));
            assert(ls@[i as int]@ == lines(chars@)[i as int]);
            assert(t@ == trim_end(lines(chars@)[i as int]));
            assert(lines_view(trimmed_lines@) =~= trim_lines(lines(chars@).take(i + 1)));
        }
        i = i + 1;
    }
    let ghost tl = trim_lines(lines(chars@));
    proof {
        assert(lines(chars@).take(i as int) =~= lines(chars@));
        lemma_lines_within(chars@);
        lemma_trim_end_within(lines(chars@), byte_len(chars@));
        lemma_dedup_within(tl, byte_len(chars@));
        lemma_drop_leading_within(dedup_blank(tl), byte_len(chars@));
    }
    let collapsed = collapse_blank_lines(&trimmed_lines);
    proof {
        assert forall|k: int| 0 <= k < collapsed@.len() implies byte_len(
            #[trigger] lines_view(collapsed@)[k],
        ) <= usize::MAX by {
            assert(lines_within(collapse(tl), byte_len(chars@)));
        }
    }
    let aligned = align_equals(&collapsed);
    let sep: Vec<char> = vec!['\n'];
    let mut out = join_chars(&aligned, &sep);
    proof {
        assert(sep@ =~= seq!['\n']);
        assert(lines_view(trimmed_lines@) =~= tl);
        assert(aligned@.map_values(|p: Vec<char>| p@) == lines_view(aligned@));
        assert(lines_view(aligned@) == format_lines(raw@));
    }
    if !(out.len() > 0 && out[out.len() - 1] == '\n') {
        out.push('\n');
    }
    string_from_chars(out.as_slice())
}

} // verus!
