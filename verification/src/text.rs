//! Character-sequence helpers shared by the naming, emission and formatting stages.
//!
//! Text is handled as sequences of `char`; the byte lengths that the output
//! layout depends on are those of the UTF-8 encoding (`vstd::utf8::encode_utf8`).
use vstd::prelude::*;
use vstd::utf8::encode_utf8;
use vstd::string::StringSliceAdditionalSpecFns;

verus! {

broadcast use vstd::seq_lib::group_seq_properties;

// ── Whitespace and trimming ─────────────────────────────────────────────────

/// `char::is_whitespace`: the characters with the Unicode `White_Space` property.
pub open spec fn is_ws(c: char) -> bool {
    let v = c as u32;
    ||| 0x09 <= v <= 0x0D
    ||| v == 0x20
    ||| v == 0x85
    ||| v == 0xA0
    ||| v == 0x1680
    ||| 0x2000 <= v <= 0x200A
    ||| v == 0x2028
    ||| v == 0x2029
    ||| v == 0x202F
    ||| v == 0x205F
    ||| v == 0x3000
}

pub fn is_whitespace(c: char) -> (r: bool)
    ensures
        r == is_ws(c),
{
    let v = c as u32;
    (0x09 <= v && v <= 0x0D) || v == 0x20 || v == 0x85 || v == 0xA0 || v == 0x1680 || (0x2000
        <= v && v <= 0x200A) || v == 0x2028 || v == 0x2029 || v == 0x202F || v == 0x205F || v
        == 0x3000
}

/// `str::trim_end`.
pub open spec fn trim_end(s: Seq<char>) -> Seq<char>
    decreases s.len(),
{
    if s.len() > 0 && is_ws(s.last()) {
        trim_end(s.drop_last())
    } else {
        s
    }
}

/// `str::trim_start`.
pub open spec fn trim_start(s: Seq<char>) -> Seq<char>
    decreases s.len(),
{
    if s.len() > 0 && is_ws(s[0]) {
        trim_start(s.drop_first())
    } else {
        s
    }
}

/// `str::trim`.
pub open spec fn trim(s: Seq<char>) -> Seq<char> {
    trim_end(trim_start(s))
}

/// `trim_end` keeps a prefix whose last character, if any, is not whitespace.
pub proof fn lemma_trim_end(s: Seq<char>)
    ensures
        trim_end(s).len() <= s.len(),
        trim_end(s) == s.take(trim_end(s).len() as int),
        trim_end(s).len() > 0 ==> !is_ws(trim_end(s).last()),
        forall|i: int| trim_end(s).len() <= i < s.len() ==> is_ws(#[trigger] s[i]),
    decreases s.len(),
{
    if s.len() > 0 && is_ws(s.last()) {
        lemma_trim_end(s.drop_last());
        assert(s.drop_last().take(trim_end(s).len() as int) =~= s.take(trim_end(s).len() as int));
        assert forall|i: int| trim_end(s).len() <= i < s.len() implies is_ws(#[trigger] s[i]) by {
            if i < s.len() - 1 {
                assert(s[i] == s.drop_last()[i]);
            }
        }
    } else {
        assert(s.take(s.len() as int) =~= s);
    }
}

/// `trim_start` keeps a suffix whose first character, if any, is not whitespace.
pub proof fn lemma_trim_start(s: Seq<char>)
    ensures
        trim_start(s).len() <= s.len(),
        trim_start(s) == s.skip(s.len() - trim_start(s).len()),
        trim_start(s).len() > 0 ==> !is_ws(trim_start(s)[0]),
        forall|i: int| 0 <= i < s.len() - trim_start(s).len() ==> is_ws(#[trigger] s[i]),
    decreases s.len(),
{
    if s.len() > 0 && is_ws(s[0]) {
        lemma_trim_start(s.drop_first());
        let k = s.len() - trim_start(s).len();
        assert(s.drop_first().skip(k - 1) =~= s.skip(k));
        assert forall|i: int| 0 <= i < k implies is_ws(#[trigger] s[i]) by {
            if i > 0 {
                assert(s[i] == s.drop_first()[i - 1]);
            }
        }
    } else {
        assert(s.skip(0) =~= s);
    }
}

/// `trim_end` is idempotent.
pub proof fn lemma_trim_end_idem(s: Seq<char>)
    ensures
        trim_end(trim_end(s)) == trim_end(s),
{
    lemma_trim_end(s);
}

/// Index just past the last non-whitespace character.
pub fn trim_end_len(s: &Vec<char>) -> (e: usize)
    ensures
        e <= s.len(),
        e as int == trim_end(s@).len(),
        trim_end(s@) == s@.take(e as int),
{
    let mut e = s.len();
    assert(s@.take(e as int) =~= s@);
    while e > 0 && is_whitespace(s[e - 1])
        invariant
            e <= s.len(),
            trim_end(s@) == trim_end(s@.take(e as int)),
        decreases e,
    {
        assert(s@.take(e as int).drop_last() =~= s@.take(e - 1));
        e = e - 1;
    }
    proof {
        assert(trim_end(s@.take(e as int)) == s@.take(e as int));
    }
    e
}

/// Index of the first non-whitespace character (the length when there is none).
pub fn trim_start_pos(s: &Vec<char>) -> (b: usize)
    ensures
        b <= s.len(),
        trim_start(s@) == s@.skip(b as int),
{
    let mut b: usize = 0;
    while b < s.len() && is_whitespace(s[b])
        invariant
            b <= s.len(),
            trim_start(s@) == trim_start(s@.skip(b as int)),
        decreases s.len() - b,
    {
        assert(s@.skip(b as int).drop_first() =~= s@.skip(b + 1));
        b = b + 1;
    }
    b
}

// ── Subsequences ────────────────────────────────────────────────────────────

/// Copy of `s[from..to]`.
pub fn slice_chars(s: &Vec<char>, from: usize, to: usize) -> (r: Vec<char>)
    requires
        from <= to <= s.len(),
    ensures
        r@ == s@.subrange(from as int, to as int),
{
    let mut r: Vec<char> = Vec::new();
    let mut i = from;
    while i < to
        invariant
            from <= i <= to <= s.len(),
            r@ == s@.subrange(from as int, i as int),
        decreases to - i,
    {
        r.push(s[i]);
        i = i + 1;
    }
    r
}

/// Appends all of `b` to `a`.
pub fn append_chars(a: &mut Vec<char>, b: &Vec<char>)
    ensures
        final(a)@ == old(a)@ + b@,
{
    let mut i: usize = 0;
    while i < b.len()
        invariant
            i <= b.len(),
            a@ == old(a)@ + b@.take(i as int),
        decreases b.len() - i,
    {
        a.push(b[i]);
        i = i + 1;
    }
}

/// Appends the characters of `s` to `a`.
pub fn append_str(a: &mut Vec<char>, s: &str)
    ensures
        final(a)@ == old(a)@ + s@,
{
    let cs = chars_of(s);
    append_chars(a, &cs);
}

/// `n` copies of `c`.
pub open spec fn repeat_char(c: char, n: nat) -> Seq<char> {
    Seq::new(n, |i: int| c)
}

pub fn push_repeat(a: &mut Vec<char>, c: char, n: usize)
    ensures
        final(a)@ == old(a)@ + repeat_char(c, n as nat),
{
    let mut i: usize = 0;
    while i < n
        invariant
            i <= n,
            a@ == old(a)@ + repeat_char(c, i as nat),
        decreases n - i,
    {
        a.push(c);
        i = i + 1;
        assert(repeat_char(c, (i - 1) as nat).push(c) =~= repeat_char(c, i as nat));
    }
}

/// Whether two character sequences are equal.
pub fn chars_eq(a: &Vec<char>, b: &Vec<char>) -> (r: bool)
    ensures
        r == (a@ == b@),
{
    if a.len() != b.len() {
        return false;
    }
    let mut i: usize = 0;
    while i < a.len()
        invariant
            i <= a.len() == b.len(),
            a@.take(i as int) == b@.take(i as int),
        decreases a.len() - i,
    {
        if a[i] != b[i] {
            return false;
        }
        assert(a@.take(i + 1) =~= a@.take(i as int).push(a@[i as int]));
        assert(b@.take(i + 1) =~= b@.take(i as int).push(b@[i as int]));
        i = i + 1;
    }
    assert(a@ =~= a@.take(i as int));
    assert(b@ =~= b@.take(i as int));
    true
}

/// Whether `c` occurs in `s`.
pub fn contains_char(s: &Vec<char>, c: char) -> (r: bool)
    ensures
        r == s@.contains(c),
{
    let mut i: usize = 0;
    while i < s.len()
        invariant
            i <= s.len(),
            forall|j: int| 0 <= j < i ==> s@[j] != c,
        decreases s.len() - i,
    {
        if s[i] == c {
            return true;
        }
        i = i + 1;
    }
    false
}

// ── Searching ────────────────────────────────────────────────────────────────

/// Position of the first occurrence of `p` in `s` at or after `i`; -1 when there is none.
pub open spec fn find_from(s: Seq<char>, p: Seq<char>, i: int) -> int
    decreases s.len() + 1 - i,
{
    if i < 0 || i + p.len() > s.len() {
        -1
    } else if s.subrange(i, i + p.len()) == p {
        i
    } else {
        find_from(s, p, i + 1)
    }
}

/// `str::find` with a string pattern, as a character position; -1 when absent.
pub open spec fn find(s: Seq<char>, p: Seq<char>) -> int {
    find_from(s, p, 0)
}

/// The pattern `" = "` that separates a key from its value.
pub open spec fn eq_sep() -> Seq<char> {
    seq![' ', '=', ' ']
}

pub proof fn lemma_find_from(s: Seq<char>, p: Seq<char>, i: int)
    requires
        0 <= i,
    ensures
        find_from(s, p, i) == -1 || (i <= find_from(s, p, i) && find_from(s, p, i) + p.len()
            <= s.len() && s.subrange(find_from(s, p, i), find_from(s, p, i) + p.len()) == p),
        find_from(s, p, i) >= 0 ==> forall|j: int|
            i <= j < find_from(s, p, i) ==> #[trigger] s.subrange(j, j + p.len()) != p,
        find_from(s, p, i) == -1 ==> forall|j: int|
            i <= j && j + p.len() <= s.len() ==> #[trigger] s.subrange(j, j + p.len()) != p,
    decreases s.len() + 1 - i,
{
    if i + p.len() > s.len() {
    } else if s.subrange(i, i + p.len()) == p {
    } else {
        lemma_find_from(s, p, i + 1);
    }
}

/// Position of the first `" = "` in `s`, if any.
pub fn find_eq_sep(s: &Vec<char>) -> (r: Option<usize>)
    ensures
        match r {
            Some(p) => p as int == find(s@, eq_sep()) && p + 3 <= s.len(),
            None => find(s@, eq_sep()) == -1,
        },
{
    proof {
        lemma_find_from(s@, eq_sep(), 0);
    }
    if s.len() < 3 {
        return None;
    }
    let mut i: usize = 0;
    while i <= s.len() - 3
        invariant
            3 <= s.len(),
            i <= s.len() - 2,
            find(s@, eq_sep()) == find_from(s@, eq_sep(), i as int),
        decreases s.len() - i,
    {
        if s[i] == ' ' && s[i + 1] == '=' && s[i + 2] == ' ' {
            assert(s@.subrange(i as int, i + 3) =~= eq_sep());
            return Some(i);
        }
        assert(s@.subrange(i as int, i + 3) != eq_sep()) by {
            if s@.subrange(i as int, i + 3) == eq_sep() {
                assert(s@.subrange(i as int, i + 3)[0] == s@[i as int]);
                assert(s@.subrange(i as int, i + 3)[1] == s@[i + 1]);
                assert(s@.subrange(i as int, i + 3)[2] == s@[i + 2]);
            }
        }
        i = i + 1;
    }
    None
}

// ── UTF-8 lengths ────────────────────────────────────────────────────────────

/// Number of bytes of the UTF-8 encoding (what `str::len` reports).
pub open spec fn byte_len(s: Seq<char>) -> nat {
    encode_utf8(s).len()
}

/// `char::len_utf8`.
pub open spec fn char_width(c: char) -> nat {
    let v = c as u32;
    if v <= 0x7F {
        1
    } else if v <= 0x7FF {
        2
    } else if v <= 0xFFFF {
        3
    } else {
        4
    }
}

pub proof fn lemma_byte_len_concat(a: Seq<char>, b: Seq<char>)
    ensures
        byte_len(a + b) == byte_len(a) + byte_len(b),
    decreases a.len(),
{
    if a.len() == 0 {
        assert(a + b =~= b);
    } else {
        lemma_byte_len_concat(a.drop_first(), b);
        assert((a + b).drop_first() =~= a.drop_first() + b);
    }
}

pub proof fn lemma_byte_len_single(c: char)
    ensures
        byte_len(seq![c]) == char_width(c),
{
    broadcast use vstd::utf8::char_is_scalar;

    assert(seq![c].drop_first() =~= Seq::<char>::empty());
    assert(encode_utf8(Seq::<char>::empty()) =~= Seq::<u8>::empty());
}

pub proof fn lemma_byte_len_push(a: Seq<char>, c: char)
    ensures
        byte_len(a.push(c)) == byte_len(a) + char_width(c),
{
    lemma_byte_len_concat(a, seq![c]);
    lemma_byte_len_single(c);
    assert(a.push(c) =~= a + seq![c]);
}

pub proof fn lemma_byte_len_prefix(s: Seq<char>, k: int)
    requires
        0 <= k <= s.len(),
    ensures
        byte_len(s.take(k)) <= byte_len(s),
        byte_len(s.skip(k)) <= byte_len(s),
        byte_len(s.take(k)) + byte_len(s.skip(k)) == byte_len(s),
{
    lemma_byte_len_concat(s.take(k), s.skip(k));
    assert(s.take(k) + s.skip(k) =~= s);
}

/// A string slice's byte length fits in `usize`.
pub proof fn lemma_str_byte_len_fits(s: &str, b: &[u8])
    requires
        b@ == s.spec_bytes(),
    ensures
        byte_len(s@) <= usize::MAX,
{
    broadcast use vstd::slice::group_slice_axioms;

    assert(b@.len() == vstd::slice::spec_slice_len(b));
}

/// `str::len`: the number of bytes of the UTF-8 encoding.
pub fn str_byte_len(s: &str) -> (n: usize)
    ensures
        n as nat == byte_len(s@),
{
    let bytes = s.as_bytes();
    proof {
        lemma_str_byte_len_fits(s, bytes);
    }
    s.len()
}

/// `char::len_utf8`.
pub fn width_of(c: char) -> (w: usize)
    ensures
        w as nat == char_width(c),
{
    let v = c as u32;
    if v <= 0x7F {
        1
    } else if v <= 0x7FF {
        2
    } else if v <= 0xFFFF {
        3
    } else {
        4
    }
}

/// Number of bytes of the UTF-8 encoding of `s`.
pub fn byte_len_of(s: &Vec<char>) -> (n: usize)
    requires
        byte_len(s@) <= usize::MAX,
    ensures
        n as nat == byte_len(s@),
{
    let mut n: usize = 0;
    let mut i: usize = 0;
    assert(s@.take(0) =~= Seq::<char>::empty());
    while i < s.len()
        invariant
            i <= s.len(),
            n as nat == byte_len(s@.take(i as int)),
            byte_len(s@) <= usize::MAX,
        decreases s.len() - i,
    {
        proof {
            assert(s@.take(i + 1) =~= s@.take(i as int).push(s@[i as int]));
            lemma_byte_len_push(s@.take(i as int), s@[i as int]);
            lemma_byte_len_prefix(s@, i + 1);
        }
        n = n + width_of(s[i]);
        i = i + 1;
    }
    assert(s@.take(i as int) =~= s@);
    n
}

// ── Lines ────────────────────────────────────────────────────────────────────

/// Position of the first `c` in `s`, or -1.
pub open spec fn index_of(s: Seq<char>, c: char) -> int
    decreases s.len(),
{
    if s.len() == 0 {
        -1
    } else if s[0] == c {
        0
    } else {
        let r = index_of(s.drop_first(), c);
        if r < 0 {
            -1
        } else {
            r + 1
        }
    }
}

pub proof fn lemma_index_of(s: Seq<char>, c: char)
    ensures
        -1 <= index_of(s, c) < s.len(),
        index_of(s, c) >= 0 ==> s[index_of(s, c)] == c,
        forall|j: int| 0 <= j < s.len() && (index_of(s, c) < 0 || j < index_of(s, c)) ==> s[j]
            != c,
    decreases s.len(),
{
    if s.len() > 0 && s[0] != c {
        lemma_index_of(s.drop_first(), c);
        assert forall|j: int|
            0 <= j < s.len() && (index_of(s, c) < 0 || j < index_of(s, c)) implies s[j] != c by {
            if j > 0 {
                assert(s[j] == s.drop_first()[j - 1]);
            }
        }
    }
}

/// Drops one trailing carriage return.
pub open spec fn strip_cr(l: Seq<char>) -> Seq<char> {
    if l.len() > 0 && l.last() == '\r' {
        l.drop_last()
    } else {
        l
    }
}

/// `str::lines`: split at `\n` (with an optional `\r` before it); a final line
/// ending adds no empty line.
pub open spec fn lines(s: Seq<char>) -> Seq<Seq<char>>
    decreases s.len(),
{
    if s.len() == 0 {
        seq![]
    } else {
        let i = index_of(s, '\n');
        if i < 0 {
            seq![s]
        } else {
            proof {
                lemma_index_of(s, '\n');
            }
            seq![strip_cr(s.take(i))] + lines(s.skip(i + 1))
        }
    }
}

/// One step of `lines`: the line that ends at the first `\n` at or after `pos`
/// (or at the end of `s`), and where the next line starts.
proof fn lemma_lines_step(s: Seq<char>, pos: int, j: int)
    requires
        0 <= pos < s.len(),
        pos <= j <= s.len(),
        forall|t: int| pos <= t < j ==> s[t] != '\n',
        j < s.len() ==> s[j] == '\n',
    ensures
        j < s.len() ==> lines(s.skip(pos)) == seq![strip_cr(s.subrange(pos, j))] + lines(
            s.skip(j + 1),
        ),
        j == s.len() ==> lines(s.skip(pos)) == seq![s.subrange(pos, j)],
{
    let rest = s.skip(pos);
    lemma_index_of(rest, '\n');
    if j < s.len() {
        assert(rest[j - pos] == '\n');
        assert(index_of(rest, '\n') == j - pos) by {
            if index_of(rest, '\n') < 0 || index_of(rest, '\n') > j - pos {
                assert(rest[j - pos] != '\n');
            }
            if 0 <= index_of(rest, '\n') < j - pos {
                assert(rest[index_of(rest, '\n')] == s[pos + index_of(rest, '\n')]);
            }
        }
        assert(rest.take(j - pos) =~= s.subrange(pos, j));
        assert(rest.skip(j - pos + 1) =~= s.skip(j + 1));
    } else {
        assert(index_of(rest, '\n') < 0) by {
            if index_of(rest, '\n') >= 0 {
                assert(rest[index_of(rest, '\n')] == s[pos + index_of(rest, '\n')]);
            }
        }
        assert(rest =~= s.subrange(pos, j));
    }
}

/// Splits `s` into lines as `str::lines` does.
#[verifier::spinoff_prover]
#[verifier::rlimit(40)]
pub fn split_lines(s: &Vec<char>) -> (r: Vec<Vec<char>>)
    ensures
        r@.len() == lines(s@).len(),
        forall|k: int| 0 <= k < r@.len() ==> #[trigger] r@[k]@ == lines(s@)[k],
{
    let mut r: Vec<Vec<char>> = Vec::new();
    let mut pos: usize = 0;
    let ghost mut acc: Seq<Seq<char>> = seq![];
    while pos < s.len()
        invariant
            pos <= s.len(),
            acc + lines(s@.skip(pos as int)) == lines(s@),
            r@.len() == acc.len(),
            forall|k: int| 0 <= k < r@.len() ==> #[trigger] r@[k]@ == acc[k],
        decreases s.len() - pos,
    {
        let mut j = pos;
        while j < s.len() && s[j] != '\n'
            invariant
                pos <= j <= s.len(),
                forall|t: int| pos <= t < j ==> s@[t] != '\n',
            decreases s.len() - j,
        {
            j = j + 1;
        }
        proof {
            lemma_lines_step(s@, pos as int, j as int);
        }
        let mut line = slice_chars(s, pos, j);
        let ghost prev = acc;
        if j < s.len() {
            if line.len() > 0 && line[line.len() - 1] == '\r' {
                line.pop();
            }
            proof {
                assert(line@ =~= strip_cr(s@.subrange(pos as int, j as int)));
                acc = acc.push(line@);
                assert(prev + lines(s@.skip(pos as int)) =~= acc + lines(s@.skip(j + 1)));
            }
            r.push(line);
            pos = j + 1;
        } else {
            proof {
                acc = acc.push(line@);
                assert(s@.skip(j as int) =~= Seq::<char>::empty());
                assert(prev + lines(s@.skip(pos as int)) =~= acc + lines(s@.skip(j as int)));
            }
            r.push(line);
            pos = j;
        }
    }
    proof {
        assert(s@.skip(pos as int) =~= Seq::<char>::empty());
        assert(acc + lines(s@.skip(pos as int)) =~= acc);
    }
    r
}

// ── Joining ──────────────────────────────────────────────────────────────────

/// `[T]::join(sep)`.
pub open spec fn join(l: Seq<Seq<char>>, sep: Seq<char>) -> Seq<char>
    decreases l.len(),
{
    if l.len() == 0 {
        seq![]
    } else if l.len() == 1 {
        l[0]
    } else {
        join(l.drop_last(), sep) + sep + l.last()
    }
}

/// Concatenation of all pieces.
pub open spec fn concat(l: Seq<Seq<char>>) -> Seq<char>
    decreases l.len(),
{
    if l.len() == 0 {
        seq![]
    } else {
        concat(l.drop_last()) + l.last()
    }
}

/// `pieces.join(sep)` for owned pieces.
pub fn join_chars(pieces: &Vec<Vec<char>>, sep: &Vec<char>) -> (r: Vec<char>)
    ensures
        r@ == join(pieces@.map_values(|p: Vec<char>| p@), sep@),
{
    let ghost ps = pieces@.map_values(|p: Vec<char>| p@);
    let mut r: Vec<char> = Vec::new();
    let mut i: usize = 0;
    while i < pieces.len()
        invariant
            i <= pieces.len(),
            ps == pieces@.map_values(|p: Vec<char>| p@),
            r@ == join(ps.take(i as int), sep@),
        decreases pieces.len() - i,
    {
        if i > 0 {
            append_chars(&mut r, sep);
        }
        append_chars(&mut r, &pieces[i]);
        proof {
            assert(ps.take(i + 1).drop_last() =~= ps.take(i as int));
            if i == 0 {
                assert(ps.take(0) =~= Seq::<Seq<char>>::empty());
            }
        }
        i = i + 1;
    }
    assert(ps.take(i as int) =~= ps);
    r
}

// ── Decimal numbers ──────────────────────────────────────────────────────────

pub open spec fn digit_char(d: nat) -> char {
    if d == 0 {
        '0'
    } else if d == 1 {
        '1'
    } else if d == 2 {
        '2'
    } else if d == 3 {
        '3'
    } else if d == 4 {
        '4'
    } else if d == 5 {
        '5'
    } else if d == 6 {
        '6'
    } else if d == 7 {
        '7'
    } else if d == 8 {
        '8'
    } else {
        '9'
    }
}

/// Decimal digits of `n` with no leading zeros.
pub open spec fn dec_nat(n: nat) -> Seq<char>
    decreases n,
{
    if n < 10 {
        seq![digit_char(n)]
    } else {
        dec_nat(n / 10).push(digit_char(n % 10))
    }
}

/// `Display` of an integer: an optional minus sign, then its decimal digits.
pub open spec fn dec_int(i: int) -> Seq<char> {
    if i < 0 {
        seq!['-'] + dec_nat((-i) as nat)
    } else {
        dec_nat(i as nat)
    }
}

fn digit_of(d: u64) -> (c: char)
    requires
        d < 10,
    ensures
        c == digit_char(d as nat),
{
    if d == 0 {
        '0'
    } else if d == 1 {
        '1'
    } else if d == 2 {
        '2'
    } else if d == 3 {
        '3'
    } else if d == 4 {
        '4'
    } else if d == 5 {
        '5'
    } else if d == 6 {
        '6'
    } else if d == 7 {
        '7'
    } else if d == 8 {
        '8'
    } else {
        '9'
    }
}

pub fn push_dec_u64(a: &mut Vec<char>, n: u64)
    ensures
        final(a)@ == old(a)@ + dec_nat(n as nat),
    decreases n,
{
    if n >= 10 {
        push_dec_u64(a, n / 10);
    }
    a.push(digit_of(n % 10));
    assert(a@ =~= old(a)@ + dec_nat(n as nat));
}

pub fn push_dec_i64(a: &mut Vec<char>, i: i64)
    ensures
        final(a)@ == old(a)@ + dec_int(i as int),
{
    if i < 0 {
        a.push('-');
        let m: u64 = if i == i64::MIN {
            9223372036854775808u64
        } else {
            (-i) as u64
        };
        push_dec_u64(a, m);
        assert(a@ =~= old(a)@ + dec_int(i as int));
    } else {
        push_dec_u64(a, i as u64);
    }
}

// ── Ordering ─────────────────────────────────────────────────────────────────

/// Lexicographic order by code point. (UTF-8 preserves code-point order, so this
/// is also the byte order by which `str` is ordered.)
pub open spec fn seq_lt(a: Seq<char>, b: Seq<char>) -> bool
    decreases a.len(),
{
    if a.len() == 0 {
        b.len() > 0
    } else if b.len() == 0 {
        false
    } else if a[0] != b[0] {
        (a[0] as int) < (b[0] as int)
    } else {
        seq_lt(a.drop_first(), b.drop_first())
    }
}

pub proof fn lemma_seq_lt_total(a: Seq<char>, b: Seq<char>)
    ensures
        a == b || seq_lt(a, b) || seq_lt(b, a),
        !(seq_lt(a, b) && seq_lt(b, a)),
    decreases a.len(),
{
    if a.len() > 0 && b.len() > 0 {
        if a[0] == b[0] {
            lemma_seq_lt_total(a.drop_first(), b.drop_first());
            if a.drop_first() == b.drop_first() {
                assert(a =~= seq![a[0]] + a.drop_first());
                assert(b =~= seq![b[0]] + b.drop_first());
            }
        }
    } else if a.len() == 0 && b.len() == 0 {
        assert(a =~= b);
    }
}

pub proof fn lemma_seq_lt_transitive(a: Seq<char>, b: Seq<char>, c: Seq<char>)
    requires
        seq_lt(a, b),
        seq_lt(b, c),
    ensures
        seq_lt(a, c),
    decreases a.len(),
{
    if a.len() > 0 && b.len() > 0 && c.len() > 0 && a[0] == b[0] && b[0] == c[0] {
        lemma_seq_lt_transitive(a.drop_first(), b.drop_first(), c.drop_first());
    }
}

/// Whether `a` sorts strictly before `b`.
pub fn chars_lt(a: &Vec<char>, b: &Vec<char>) -> (r: bool)
    ensures
        r == seq_lt(a@, b@),
{
    let mut i: usize = 0;
    while i < a.len() && i < b.len() && a[i] == b[i]
        invariant
            i <= a.len(),
            i <= b.len(),
            seq_lt(a@, b@) == seq_lt(a@.skip(i as int), b@.skip(i as int)),
        decreases a.len() - i,
    {
        assert(a@.skip(i as int).drop_first() =~= a@.skip(i + 1));
        assert(b@.skip(i as int).drop_first() =~= b@.skip(i + 1));
        i = i + 1;
    }
    if i == a.len() {
        i < b.len()
    } else if i == b.len() {
        false
    } else {
        assert(a@.skip(i as int)[0] == a@[i as int]);
        assert(b@.skip(i as int)[0] == b@[i as int]);
        a[i] < b[i]
    }
}

/// Where `x` goes in `s`: after every leading element that does not sort after it.
pub open spec fn insert_pos(s: Seq<Seq<char>>, x: Seq<char>) -> int
    decreases s.len(),
{
    if s.len() == 0 {
        0
    } else if seq_lt(x, s[0]) {
        0
    } else {
        1 + insert_pos(s.drop_first(), x)
    }
}

/// `s` with `x` inserted at `insert_pos(s, x)`.
pub open spec fn insert_sorted(s: Seq<Seq<char>>, x: Seq<char>) -> Seq<Seq<char>> {
    s.take(insert_pos(s, x)) + seq![x] + s.skip(insert_pos(s, x))
}

/// The strings of `s` in ascending order (as `sort_unstable` on `&str` leaves them).
pub open spec fn sort_seqs(s: Seq<Seq<char>>) -> Seq<Seq<char>>
    decreases s.len(),
{
    if s.len() == 0 {
        s
    } else {
        insert_sorted(sort_seqs(s.drop_last()), s.last())
    }
}

/// No element sorts before an element that precedes it.
pub open spec fn is_sorted(s: Seq<Seq<char>>) -> bool {
    forall|i: int, j: int| 0 <= i < j < s.len() ==> !seq_lt(#[trigger] s[j], #[trigger] s[i])
}

pub proof fn lemma_insert_pos(s: Seq<Seq<char>>, x: Seq<char>)
    ensures
        0 <= insert_pos(s, x) <= s.len(),
        forall|k: int| 0 <= k < insert_pos(s, x) ==> !seq_lt(x, #[trigger] s[k]),
        insert_pos(s, x) < s.len() ==> seq_lt(x, s[insert_pos(s, x)]),
    decreases s.len(),
{
    if s.len() > 0 && !seq_lt(x, s[0]) {
        lemma_insert_pos(s.drop_first(), x);
        assert forall|k: int| 0 <= k < insert_pos(s, x) implies !seq_lt(x, #[trigger] s[k]) by {
            if k > 0 {
                assert(s[k] == s.drop_first()[k - 1]);
            }
        }
    }
}

proof fn lemma_insert_sorted_sorted(p: Seq<Seq<char>>, x: Seq<char>)
    requires
        is_sorted(p),
    ensures
        is_sorted(insert_sorted(p, x)),
{
    let k = insert_pos(p, x);
    lemma_insert_pos(p, x);
    let r = insert_sorted(p, x);
    assert forall|i: int, j: int| 0 <= i < j < r.len() implies !seq_lt(
        #[trigger] r[j],
        #[trigger] r[i],
    ) by {
        if j < k {
            assert(r[i] == p[i] && r[j] == p[j]);
        } else if j == k {
            assert(r[i] == p[i]);
            assert(!seq_lt(x, p[i]));
        } else if i < k {
            assert(r[i] == p[i] && r[j] == p[j - 1]);
        } else if i == k {
            assert(r[j] == p[j - 1]);
            assert(r[i] == x);
            assert(seq_lt(x, p[k]));
            if seq_lt(p[j - 1], x) {
                if j - 1 > k {
                    assert(!seq_lt(p[j - 1], p[k]));
                    lemma_seq_lt_transitive(p[j - 1], x, p[k]);
                } else {
                    lemma_seq_lt_total(x, p[k]);
                }
            }
        } else {
            assert(r[i] == p[i - 1] && r[j] == p[j - 1]);
        }
    }
}

proof fn lemma_insert_sorted_perm(p: Seq<Seq<char>>, x: Seq<char>)
    ensures
        insert_sorted(p, x).to_multiset() == p.push(x).to_multiset(),
        insert_sorted(p, x).len() == p.len() + 1,
{
    let k = insert_pos(p, x);
    lemma_insert_pos(p, x);
    vstd::seq_lib::lemma_multiset_commutative(p.take(k), seq![x]);
    vstd::seq_lib::lemma_multiset_commutative(p.take(k) + seq![x], p.skip(k));
    vstd::seq_lib::lemma_multiset_commutative(p.take(k), p.skip(k));
    assert(p.take(k) + p.skip(k) =~= p);
    vstd::seq_lib::lemma_multiset_commutative(p, seq![x]);
    assert(p + seq![x] =~= p.push(x));
    assert(seq![x] + p.take(k) + p.skip(k) =~= seq![x] + (p.take(k) + p.skip(k)));
    vstd::seq_lib::lemma_multiset_commutative(seq![x], p.take(k));
    vstd::seq_lib::lemma_multiset_commutative(seq![x] + p.take(k), p.skip(k));
    vstd::seq_lib::lemma_multiset_commutative(seq![x], p);
}

/// `sort_seqs` keeps every element and orders them.
pub proof fn lemma_sort_seqs(s: Seq<Seq<char>>)
    ensures
        sort_seqs(s).len() == s.len(),
        sort_seqs(s).to_multiset() == s.to_multiset(),
        is_sorted(sort_seqs(s)),
    decreases s.len(),
{
    if s.len() > 0 {
        lemma_sort_seqs(s.drop_last());
        lemma_insert_sorted_sorted(sort_seqs(s.drop_last()), s.last());
        lemma_insert_sorted_perm(sort_seqs(s.drop_last()), s.last());
        broadcast use vstd::seq_lib::group_to_multiset_ensures;

        assert(s.drop_last().push(s.last()) =~= s);
    }
}

/// Index of the position at which `x` is inserted into the sorted `keys`.
pub fn find_insert_pos(keys: &Vec<Vec<char>>, x: &Vec<char>) -> (p: usize)
    ensures
        p as int == insert_pos(keys@.map_values(|k: Vec<char>| k@), x@),
{
    let ghost s = keys@.map_values(|k: Vec<char>| k@);
    let mut p: usize = 0;
    while p < keys.len() && !chars_lt(x, &keys[p])
        invariant
            p <= keys.len(),
            s == keys@.map_values(|k: Vec<char>| k@),
            insert_pos(s, x@) == p + insert_pos(s.skip(p as int), x@),
        decreases keys.len() - p,
    {
        assert(s.skip(p as int)[0] == keys@[p as int]@);
        assert(s.skip(p as int).drop_first() =~= s.skip(p + 1));
        p = p + 1;
    }
    proof {
        if p < keys.len() {
            assert(s.skip(p as int)[0] == keys@[p as int]@);
        }
    }
    p
}

// ── Bridges to std ───────────────────────────────────────────────────────────

/// The characters of a string slice, in order.
pub fn chars_of(s: &str) -> (r: Vec<char>)
    ensures
        r@ == s@,
{
    let mut r: Vec<char> = Vec::new();
    for c in it: s.chars()
        invariant
            r@ == it.seq().take(it.index() as int),
            it.seq() == s@,
    {
        r.push(c);
    }
    r
}

/// `String: FromIterator<char>`: a `String` holding exactly the given characters.
#[verifier::external_body]
pub(crate) fn string_from_chars(cs: &[char]) -> (r: String)
    ensures
        r@ == cs@,
{
    cs.iter().collect()
}

// ── Case mapping ────────────────────────────────────────────────────────────

/// A character of the ASCII range.
pub open spec fn is_ascii_char(c: char) -> bool {
    (c as u32) < 128
}

/// Every character of `s` is ASCII.
pub open spec fn all_ascii(s: Seq<char>) -> bool {
    forall|i: int| 0 <= i < s.len() ==> is_ascii_char(#[trigger] s[i])
}

/// ASCII upper case: `a`..`z` become `A`..`Z`; every other character is kept.
pub open spec fn ascii_upper(c: char) -> char {
    if 97 <= (c as u32) <= 122 {
        ((c as u32) - 32) as char
    } else {
        c
    }
}

/// ASCII lower case: `A`..`Z` become `a`..`z`; every other character is kept.
pub open spec fn ascii_lower(c: char) -> char {
    if 65 <= (c as u32) <= 90 {
        ((c as u32) + 32) as char
    } else {
        c
    }
}

/// What `str::to_uppercase` returns for a string that is not all ASCII (full
/// Unicode case mapping).
pub uninterp spec fn uppercase_of(s: Seq<char>) -> Seq<char>;

/// What `str::to_lowercase` returns for a string that is not all ASCII (full
/// Unicode case mapping).
pub uninterp spec fn lowercase_of(s: Seq<char>) -> Seq<char>;

/// What `char::to_uppercase` yields for a character outside ASCII, collected
/// into a string.
pub uninterp spec fn char_uppercase_of(c: char) -> Seq<char>;

/// The upper case of a string: ASCII text letter by letter, other text by the
/// Unicode mapping.
pub open spec fn upper_str(s: Seq<char>) -> Seq<char> {
    if all_ascii(s) {
        s.map_values(|c: char| ascii_upper(c))
    } else {
        uppercase_of(s)
    }
}

/// The lower case of a string: ASCII text letter by letter, other text by the
/// Unicode mapping.
pub open spec fn lower_str(s: Seq<char>) -> Seq<char> {
    if all_ascii(s) {
        s.map_values(|c: char| ascii_lower(c))
    } else {
        lowercase_of(s)
    }
}

/// The upper case of a character: one character for ASCII, the Unicode mapping
/// (one or more characters) otherwise.
pub open spec fn upper_char(c: char) -> Seq<char> {
    if is_ascii_char(c) {
        seq![ascii_upper(c)]
    } else {
        char_uppercase_of(c)
    }
}

/// Calls `str::to_uppercase`. For ASCII text the Unicode mapping is the ASCII
/// one (`a`..`z` to `A`..`Z`, everything else kept, one character each); other
/// text gets whatever the function returns for it.
#[verifier::external_body]
pub(crate) fn str_to_uppercase(s: &str) -> (r: String)
    ensures
        all_ascii(s@) ==> r@ == s@.map_values(|c: char| ascii_upper(c)),
        !all_ascii(s@) ==> r@ == uppercase_of(s@),
{
    s.to_uppercase()
}

/// Calls `str::to_lowercase`. For ASCII text the Unicode mapping is the ASCII
/// one (`A`..`Z` to `a`..`z`, everything else kept); other text gets whatever the
/// function returns for it.
#[verifier::external_body]
pub(crate) fn str_to_lowercase(s: &str) -> (r: String)
    ensures
        all_ascii(s@) ==> r@ == s@.map_values(|c: char| ascii_lower(c)),
        !all_ascii(s@) ==> r@ == lowercase_of(s@),
{
    s.to_lowercase()
}

/// Calls `char::to_uppercase` and collects the characters it yields. An ASCII
/// character has a one-to-one mapping in the Unicode Character Database, the
/// ASCII one; another character yields whatever the function yields for it.
#[verifier::external_body]
pub(crate) fn char_to_uppercase(c: char) -> (r: String)
    ensures
        is_ascii_char(c) ==> r@ == seq![ascii_upper(c)],
        !is_ascii_char(c) ==> r@ == char_uppercase_of(c),
{
    c.to_uppercase().to_string()
}

} // verus!
