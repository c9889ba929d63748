//! Heuristic naming: readable identifiers derived from structural context.
use vstd::prelude::*;
use crate::text::{
    append_chars, byte_len, all_ascii, ascii_upper, char_to_uppercase, is_ascii_char, upper_char, chars_of, slice_chars,
    str_byte_len, string_from_chars,
};

verus! {

/// Word separators of snake_case, kebab-case and spaced names.
pub open spec fn is_sep(c: char) -> bool {
    c == '_' || c == '-' || c == ' '
}

/// What character `i` of `s` contributes to its PascalCase form: nothing for a
/// separator, its uppercase form at the start of a word, itself otherwise.
pub open spec fn pascal_piece(s: Seq<char>, i: int) -> Seq<char> {
    if is_sep(s[i]) {
        seq![]
    } else if i == 0 || is_sep(s[i - 1]) {
        upper_char(s[i])
    } else {
        seq![s[i]]
    }
}

/// PascalCase of the first `n` characters of `s`.
pub open spec fn pascal_prefix(s: Seq<char>, n: int) -> Seq<char>
    decreases n,
{
    if n <= 0 {
        seq![]
    } else {
        pascal_prefix(s, n - 1) + pascal_piece(s, n - 1)
    }
}

/// `s` split at `_`, `-` and ` `, each word with its first character uppercased,
/// and the words concatenated.
pub open spec fn pascal(s: Seq<char>) -> Seq<char> {
    pascal_prefix(s, s.len() as int)
}

// ── PascalCase of ASCII names ───────────────────────────────────────────────

/// A PascalCase name as the conversion leaves ASCII text: ASCII, without
/// separators, and starting with a character that upper case keeps.
pub open spec fn pascal_shaped(p: Seq<char>) -> bool {
    &&& forall|i: int| 0 <= i < p.len() ==> is_ascii_char(#[trigger] p[i]) && !is_sep(p[i])
    &&& p.len() > 0 ==> ascii_upper(p[0]) == p[0]
}

proof fn lemma_ascii_upper(c: char)
    requires
        is_ascii_char(c),
    ensures
        is_ascii_char(ascii_upper(c)),
        ascii_upper(ascii_upper(c)) == ascii_upper(c),
        !is_sep(c) ==> !is_sep(ascii_upper(c)),
{
    if 97 <= (c as u32) <= 122 {
        let d = ((c as u32) - 32) as char;
        assert((d as u32) == (c as u32) - 32);
    }
}

proof fn lemma_pascal_prefix_shape(s: Seq<char>, n: int)
    requires
        all_ascii(s),
        0 <= n <= s.len(),
    ensures
        pascal_shaped(pascal_prefix(s, n)),
        pascal_prefix(s, n).len() == 0 ==> forall|i: int| 0 <= i < n ==> is_sep(#[trigger] s[i]),
    decreases n,
{
    if n > 0 {
        let i = n - 1;
        let p = pascal_prefix(s, i);
        lemma_pascal_prefix_shape(s, i);
        assert(is_ascii_char(s[i]));
        lemma_ascii_upper(s[i]);
        let piece = pascal_piece(s, i);
        let q = p + piece;
        assert(pascal_prefix(s, n) == q);
        assert forall|k: int| 0 <= k < q.len() implies is_ascii_char(#[trigger] q[k]) && !is_sep(q[k]) by {
            if k >= p.len() {
                assert(q[k] == piece[k - p.len()]);
            } else {
                assert(q[k] == p[k]);
            }
        }
        if q.len() > 0 {
            if p.len() > 0 {
                assert(q[0] == p[0]);
            } else {
                if i > 0 {
                    assert(is_sep(s[i - 1]));
                }
                assert(q[0] == piece[0]);
            }
        }
        if q.len() == 0 {
            assert forall|k: int| 0 <= k < n implies is_sep(#[trigger] s[k]) by {
                if k == i {
                    assert(piece.len() == 0);
                }
            }
        }
    }
}

proof fn lemma_pascal_of_shaped(p: Seq<char>, n: int)
    requires
        pascal_shaped(p),
        0 <= n <= p.len(),
    ensures
        pascal_prefix(p, n) == p.take(n),
    decreases n,
{
    if n > 0 {
        lemma_pascal_of_shaped(p, n - 1);
        let i = n - 1;
        if i == 0 {
            assert(pascal_piece(p, 0) == seq![p[0]]);
        } else {
            assert(!is_sep(p[i - 1]));
            assert(pascal_piece(p, i) == seq![p[i]]);
        }
        assert(p.take(n) =~= p.take(i) + seq![p[i]]);
    } else {
        assert(p.take(0) =~= Seq::<char>::empty());
    }
}

/// For an ASCII name, the PascalCase form is ASCII, has no `_`, `-` or ` `,
/// and converting it again changes nothing.
pub proof fn pascal_of_ascii(s: Seq<char>)
    requires
        all_ascii(s),
    ensures
        all_ascii(pascal(s)),
        forall|i: int| 0 <= i < pascal(s).len() ==> !is_sep(#[trigger] pascal(s)[i]),
        pascal(pascal(s)) == pascal(s),
{
    lemma_pascal_prefix_shape(s, s.len() as int);
    let p = pascal(s);
    assert forall|i: int| 0 <= i < p.len() implies is_ascii_char(#[trigger] p[i]) by {}
    lemma_pascal_of_shaped(p, p.len() as int);
    assert(p.take(p.len() as int) =~= p);
}

/// Whether `s` ends with `suffix`.
pub open spec fn ends_with(s: Seq<char>, suffix: Seq<char>) -> bool {
    s.len() >= suffix.len() && s.skip(s.len() - suffix.len()) == suffix
}

/// Strips a common English plural ending: `ies` → `y`, `ves` → `f`,
/// `ses`/`xes`/`zes` → drop `es`, and a final `s` of a word longer than two
/// bytes → drop it; anything else is kept as it is.
pub open spec fn singular(s: Seq<char>) -> Seq<char> {
    if ends_with(s, seq!['i', 'e', 's']) {
        s.take(s.len() - 3).push('y')
    } else if ends_with(s, seq!['v', 'e', 's']) {
        s.take(s.len() - 3).push('f')
    } else if ends_with(s, seq!['s', 'e', 's']) || ends_with(s, seq!['x', 'e', 's']) || ends_with(
        s,
        seq!['z', 'e', 's'],
    ) {
        s.take(s.len() - 2)
    } else if ends_with(s, seq!['s']) && byte_len(s) > 2 {
        s.take(s.len() - 1)
    } else {
        s
    }
}

fn is_separator(c: char) -> (r: bool)
    ensures
        r == is_sep(c),
{
    c == '_' || c == '-' || c == ' '
}

/// Converts snake_case, kebab-case or spaced words to PascalCase.
pub fn to_pascal(s: &str) -> (r: String)
    ensures
        r@ == pascal(s@),
{
    let cs = chars_of(s);
    let mut out: Vec<char> = Vec::new();
    let mut i: usize = 0;
    while i < cs.len()
        invariant
            i <= cs.len(),
            cs@ == s@,
            out@ == pascal_prefix(s@, i as int),
        decreases cs.len() - i,
    {
        let c = cs[i];
        if is_separator(c) {
        } else if i == 0 || is_separator(cs[i - 1]) {
            let up = char_to_uppercase(c);
            let ucs = chars_of(up.as_str());
            append_chars(&mut out, &ucs);
        } else {
            out.push(c);
        }
        assert(out@ =~= pascal_prefix(s@, i + 1));
        i = i + 1;
    }
    string_from_chars(out.as_slice())
}

fn ends_with_chars(s: &Vec<char>, suffix: &Vec<char>) -> (r: bool)
    ensures
        r == ends_with(s@, suffix@),
{
    if s.len() < suffix.len() {
        return false;
    }
    let start = s.len() - suffix.len();
    let tail = slice_chars(s, start, s.len());
    assert(tail@ =~= s@.skip(start as int));
    crate::text::chars_eq(&tail, suffix)
}

/// Strips common English plural suffixes.
pub fn singularize(s: &str) -> (r: String)
    ensures
        r@ == singular(s@),
{
    let cs = chars_of(s);
    let ies: Vec<char> = vec!['i', 'e', 's'];
    let ves: Vec<char> = vec!['v', 'e', 's'];
    let ses: Vec<char> = vec!['s', 'e', 's'];
    let xes: Vec<char> = vec!['x', 'e', 's'];
    let zes: Vec<char> = vec!['z', 'e', 's'];
    let one_s: Vec<char> = vec!['s'];
    assert(ies@ =~= seq!['i', 'e', 's']);
    assert(ves@ =~= seq!['v', 'e', 's']);
    assert(ses@ =~= seq!['s', 'e', 's']);
    assert(xes@ =~= seq!['x', 'e', 's']);
    assert(zes@ =~= seq!['z', 'e', 's']);
    assert(one_s@ =~= seq!['s']);
    let out = if ends_with_chars(&cs, &ies) {
        let mut t = slice_chars(&cs, 0, cs.len() - 3);
        t.push('y');
        t
    } else if ends_with_chars(&cs, &ves) {
        let mut t = slice_chars(&cs, 0, cs.len() - 3);
        t.push('f');
        t
    } else if ends_with_chars(&cs, &ses) || ends_with_chars(&cs, &xes) || ends_with_chars(
        &cs,
        &zes,
    ) {
        slice_chars(&cs, 0, cs.len() - 2)
    } else if ends_with_chars(&cs, &one_s) && str_byte_len(s) > 2 {
        slice_chars(&cs, 0, cs.len() - 1)
    } else {
        slice_chars(&cs, 0, cs.len())
    };
    assert(cs@.take(cs@.len() as int) =~= cs@);
    string_from_chars(out.as_slice())
}

/// A `String` holding the characters of `s`.
pub fn string_of(s: &str) -> (r: String)
    ensures
        r@ == s@,
{
    let cs = chars_of(s);
    string_from_chars(cs.as_slice())
}

/// The PascalCase enum name derived from the first key, or `MyEnum`.
///
///   `["weapon_type"]` → `WeaponType`, `["rarity"]` → `Rarity`
pub fn name_enum(keys: &[String]) -> (r: String)
    ensures
        r@ == if keys@.len() == 0 {
            "MyEnum"@
        } else {
            pascal(keys@[0]@)
        },
{
    if keys.len() == 0 {
        string_of("MyEnum")
    } else {
        to_pascal(keys[0].as_str())
    }
}

/// The function name derived from the first key by singularising, or `make_entry`.
///
///   `weapons` → `weapon`, `enemies` → `enemy`, `categories` → `category`
pub fn name_func(keys: &[String]) -> (r: String)
    ensures
        r@ == if keys@.len() == 0 {
            "make_entry"@
        } else {
            singular(keys@[0]@)
        },
{
    if keys.len() == 0 {
        string_of("make_entry")
    } else {
        singularize(keys[0].as_str())
    }
}

} // verus!
