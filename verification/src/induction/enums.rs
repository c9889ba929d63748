//! Enum induction: frequency analysis of string field values.
//!
//!   1. Walk the tree collecting every (key, string value) occurrence.
//!   2. For keys with few distinct values (at most `MAX_ENUM_VALUES`) and enough
//!      uses (at least `min_occurrences`), estimate the saving.
//!   3. Keep the keys whose estimated saving reaches the threshold.
use vstd::prelude::*;
use crate::ingestion::ir::{Node, NodeV, Primitive, fields_view, lemma_array_view, lemma_record_view, node_view};
use crate::induction::math::{enum_saving_checked, enum_saving_fits, enum_saving_spec};
use crate::induction::{sort_desc, stable_pos};
use crate::text::{chars_of, find_insert_pos, insert_sorted, lemma_insert_pos, sort_seqs};
use crate::{ConvertOptions, threshold_of};

verus! {

/// Most distinct values a string field may have to be an enum candidate; beyond
/// this it is likely free-form text.
pub const MAX_ENUM_VALUES: usize = 16;

/// A string field to be turned into an enum.
#[derive(Debug, Clone)]
pub struct EnumCandidate {
    /// Resolved name (set by the naming phase).
    pub name: String,
    /// Sorted distinct values; they become the enum's fields.
    pub values: Vec<String>,
    /// Keys in the tree whose values are of this enum type.
    pub keys: Vec<String>,
    /// Estimated character saving.
    pub saving: isize,
}

/// The value of an `EnumCandidate`.
pub struct EnumV {
    pub name: Seq<char>,
    pub values: Seq<Seq<char>>,
    pub keys: Seq<Seq<char>>,
    pub saving: int,
}

pub open spec fn strings_view(v: Seq<String>) -> Seq<Seq<char>> {
    v.map_values(|s: String| s@)
}

impl View for EnumCandidate {
    type V = EnumV;

    open spec fn view(&self) -> EnumV {
        EnumV {
            name: self.name@,
            values: strings_view(self.values@),
            keys: strings_view(self.keys@),
            saving: self.saving as int,
        }
    }
}

pub open spec fn enums_view(v: Seq<EnumCandidate>) -> Seq<EnumV> {
    v.map_values(|c: EnumCandidate| c@)
}

// ── Occurrences ──────────────────────────────────────────────────────────────

/// Every (key, value) of a string-valued record field, in document order; other
/// field values are searched recursively.
pub open spec fn string_occurrences(n: NodeV) -> Seq<(Seq<char>, Seq<char>)>
    decreases n,
{
    match n {
        NodeV::Record(fs) => field_occurrences(fs, fs.len() as int),
        NodeV::Array(xs) => item_occurrences(xs, xs.len() as int),
        _ => seq![],
    }
}

pub open spec fn field_occurrences(fs: Seq<(Seq<char>, NodeV)>, k: int) -> Seq<(Seq<char>, Seq<char>)>
    decreases fs, k,
{
    if k <= 0 || k > fs.len() {
        seq![]
    } else {
        field_occurrences(fs, k - 1) + match fs[k - 1].1 {
            NodeV::Str(s) => seq![(fs[k - 1].0, s)],
            _ => string_occurrences(fs[k - 1].1),
        }
    }
}

pub open spec fn item_occurrences(xs: Seq<NodeV>, k: int) -> Seq<(Seq<char>, Seq<char>)>
    decreases xs, k,
{
    if k <= 0 || k > xs.len() {
        seq![]
    } else {
        item_occurrences(xs, k - 1) + string_occurrences(xs[k - 1])
    }
}

pub open spec fn pairs_view(v: Seq<(String, String)>) -> Seq<(Seq<char>, Seq<char>)> {
    v.map_values(|p: (String, String)| (p.0@, p.1@))
}

fn collect_string_occurrences(node: &Node, out: &mut Vec<(String, String)>)
    ensures
        pairs_view(final(out)@) == pairs_view(old(out)@) + string_occurrences(node@),
    decreases node,
{
    match node {
        Node::Record(r) => {
            proof {
                lemma_record_view(*r);
            }
            let mut i: usize = 0;
            while i < r.fields.len()
                invariant
                    i <= r.fields.len(),
                    *node == Node::Record(*r),
                    node@ == NodeV::Record(r@),
                    r@ == fields_view(r.fields@),
                    pairs_view(out@) == pairs_view(old(out)@) + field_occurrences(r@, i as int),
                decreases r.fields.len() - i,
            {
                let ghost before = pairs_view(out@);
                assert(r@[i as int] == (r.fields@[i as int].0@, node_view(r.fields@[i as int].1)));
                match &r.fields[i].1 {
                    Node::Primitive(Primitive::Str(s)) => {
                        out.push((r.fields[i].0.clone(), s.clone()));
                        assert(pairs_view(out@) =~= before + seq![(r@[i as int].0, s@)]);
                    },
                    _ => {
                        proof {
                            assert(decreases_to!(*node => node->Record_0));
                            broadcast use vstd::std_specs::vec::axiom_vec_index_decreases;

                            assert(decreases_to!(r.fields => r.fields[i as int]));
                        }
                        collect_string_occurrences(&r.fields[i].1, out);
                    },
                }
                assert(pairs_view(out@) =~= pairs_view(old(out)@) + field_occurrences(
                    r@,
                    i + 1,
                ));
                i = i + 1;
            }
        },
        Node::Array(items) => {
            proof {
                lemma_array_view(*items);
            }
            let ghost xs = items@.map_values(|n: Node| node_view(n));
            let mut i: usize = 0;
            while i < items.len()
                invariant
                    i <= items.len(),
                    *node == Node::Array(*items),
                    xs == items@.map_values(|n: Node| node_view(n)),
                    node@ == NodeV::Array(xs),
                    pairs_view(out@) == pairs_view(old(out)@) + item_occurrences(xs, i as int),
                decreases items.len() - i,
            {
                proof {
                    assert(decreases_to!(*node => node->Array_0));
                    broadcast use vstd::std_specs::vec::axiom_vec_index_decreases;

                    assert(decreases_to!(*items => items[i as int]));
                }
                collect_string_occurrences(&items[i], out);
                assert(pairs_view(out@) =~= pairs_view(old(out)@) + item_occurrences(xs, i + 1));
                i = i + 1;
            }
        },
        _ => {
            assert(pairs_view(out@) =~= pairs_view(old(out)@) + string_occurrences(node@));
        },
    }
}

// ── Per-key statistics ───────────────────────────────────────────────────────

/// The distinct keys of `occ`, in order of first occurrence.
pub open spec fn first_keys(occ: Seq<(Seq<char>, Seq<char>)>) -> Seq<Seq<char>>
    decreases occ.len(),
{
    if occ.len() == 0 {
        seq![]
    } else {
        let p = first_keys(occ.drop_last());
        if p.contains(occ.last().0) {
            p
        } else {
            p.push(occ.last().0)
        }
    }
}

/// The distinct values used with key `k`, in order of first occurrence.
pub open spec fn values_for(occ: Seq<(Seq<char>, Seq<char>)>, k: Seq<char>) -> Seq<Seq<char>>
    decreases occ.len(),
{
    if occ.len() == 0 {
        seq![]
    } else {
        let p = values_for(occ.drop_last(), k);
        if occ.last().0 == k && !p.contains(occ.last().1) {
            p.push(occ.last().1)
        } else {
            p
        }
    }
}

/// How many times key `k` occurs.
pub open spec fn uses_of(occ: Seq<(Seq<char>, Seq<char>)>, k: Seq<char>) -> nat
    decreases occ.len(),
{
    if occ.len() == 0 {
        0
    } else {
        uses_of(occ.drop_last(), k) + if occ.last().0 == k {
            1nat
        } else {
            0nat
        }
    }
}

pub proof fn lemma_absent_key(occ: Seq<(Seq<char>, Seq<char>)>, k: Seq<char>)
    requires
        !first_keys(occ).contains(k),
    ensures
        values_for(occ, k) == Seq::<Seq<char>>::empty(),
        uses_of(occ, k) == 0,
    decreases occ.len(),
{
    if occ.len() > 0 {
        let p = first_keys(occ.drop_last());
        if !p.contains(occ.last().0) {
            assert(first_keys(occ) == p.push(occ.last().0));
            assert(first_keys(occ)[p.len() as int] == occ.last().0);
        }
        assert(!p.contains(k)) by {
            if p.contains(k) {
                let t = choose|t: int| 0 <= t < p.len() && p[t] == k;
                assert(first_keys(occ)[t] == k);
            }
        }
        lemma_absent_key(occ.drop_last(), k);
    }
}

proof fn lemma_uses_bound(occ: Seq<(Seq<char>, Seq<char>)>, k: Seq<char>)
    ensures
        uses_of(occ, k) <= occ.len(),
    decreases occ.len(),
{
    if occ.len() > 0 {
        lemma_uses_bound(occ.drop_last(), k);
    }
}

/// No two entries of `s` are equal.
pub open spec fn distinct(s: Seq<Seq<char>>) -> bool {
    forall|i: int, j: int| 0 <= i < j < s.len() ==> #[trigger] s[i] != #[trigger] s[j]
}

pub proof fn lemma_first_keys_distinct(occ: Seq<(Seq<char>, Seq<char>)>)
    ensures
        distinct(first_keys(occ)),
    decreases occ.len(),
{
    if occ.len() > 0 {
        lemma_first_keys_distinct(occ.drop_last());
    }
}

pub proof fn lemma_values_for_distinct(occ: Seq<(Seq<char>, Seq<char>)>, k: Seq<char>)
    ensures
        distinct(values_for(occ, k)),
    decreases occ.len(),
{
    if occ.len() > 0 {
        lemma_values_for_distinct(occ.drop_last(), k);
    }
}

fn copy_strings(v: &Vec<String>) -> (r: Vec<String>)
    ensures
        strings_view(r@) == strings_view(v@),
{
    let mut r: Vec<String> = Vec::new();
    let mut i: usize = 0;
    while i < v.len()
        invariant
            i <= v.len(),
            strings_view(r@) == strings_view(v@).take(i as int),
        decreases v.len() - i,
    {
        let ghost prev = strings_view(r@);
        r.push(v[i].clone());
        assert(strings_view(r@) =~= prev.push(v@[i as int]@));
        assert(strings_view(v@).take(i + 1) =~= strings_view(v@).take(i as int).push(v@[i as int]@));
        i = i + 1;
    }
    assert(strings_view(v@).take(i as int) =~= strings_view(v@));
    r
}

fn contains_string(v: &Vec<String>, s: &String) -> (r: bool)
    ensures
        r == strings_view(v@).contains(s@),
{
    let mut i: usize = 0;
    while i < v.len()
        invariant
            i <= v.len(),
            forall|j: int| 0 <= j < i ==> strings_view(v@)[j] != s@,
        decreases v.len() - i,
    {
        if v[i].eq(s) {
            assert(strings_view(v@)[i as int] == s@);
            return true;
        }
        i = i + 1;
    }
    false
}

fn index_of_string(v: &Vec<String>, s: &String) -> (r: Option<usize>)
    ensures
        match r {
            Some(j) => j < v@.len() && v@[j as int]@ == s@,
            None => !strings_view(v@).contains(s@),
        },
{
    let mut i: usize = 0;
    while i < v.len()
        invariant
            i <= v.len(),
            forall|j: int| 0 <= j < i ==> strings_view(v@)[j] != s@,
        decreases v.len() - i,
    {
        if v[i].eq(s) {
            return Some(i);
        }
        i = i + 1;
    }
    None
}

/// Per-key statistics of the occurrences: the keys in order of first occurrence,
/// each key's distinct values, and its number of uses.
struct KeyStats {
    keys: Vec<String>,
    values: Vec<Vec<String>>,
    uses: Vec<usize>,
}

/// The statistics of the occurrences `o`, as sequences.
spec fn stats_hold(
    ks: Seq<Seq<char>>,
    vs: Seq<Seq<Seq<char>>>,
    us: Seq<int>,
    o: Seq<(Seq<char>, Seq<char>)>,
) -> bool {
    &&& ks == first_keys(o)
    &&& vs.len() == ks.len()
    &&& us.len() == ks.len()
    &&& forall|j: int|
        0 <= j < ks.len() ==> #[trigger] vs[j] == values_for(o, ks[j]) && us[j] == uses_of(
            o,
            ks[j],
        )
}

spec fn values_view(v: Seq<Vec<String>>) -> Seq<Seq<Seq<char>>> {
    v.map_values(|x: Vec<String>| strings_view(x@))
}

spec fn uses_view(v: Seq<usize>) -> Seq<int> {
    v.map_values(|u: usize| u as int)
}

/// The statistics describe the occurrences `o`.
spec fn stats_describe(st: KeyStats, o: Seq<(Seq<char>, Seq<char>)>) -> bool {
    stats_hold(strings_view(st.keys@), values_view(st.values@), uses_view(st.uses@), o)
}

proof fn lemma_stats_existing(
    ks: Seq<Seq<char>>,
    vs: Seq<Seq<Seq<char>>>,
    us: Seq<int>,
    o: Seq<(Seq<char>, Seq<char>)>,
    k: Seq<char>,
    v: Seq<char>,
    j: int,
)
    requires
        stats_hold(ks, vs, us, o),
        0 <= j < ks.len(),
        ks[j] == k,
    ensures
        stats_hold(
            ks,
            vs.update(
                j,
                if vs[j].contains(v) {
                    vs[j]
                } else {
                    vs[j].push(v)
                },
            ),
            us.update(j, us[j] + 1),
            o.push((k, v)),
        ),
{
    let o2 = o.push((k, v));
    assert(o2.drop_last() =~= o);
    assert(first_keys(o2) == first_keys(o));
    lemma_first_keys_distinct(o);
    let vs2 = vs.update(
        j,
        if vs[j].contains(v) {
            vs[j]
        } else {
            vs[j].push(v)
        },
    );
    let us2 = us.update(j, us[j] + 1);
    assert forall|t: int| 0 <= t < ks.len() implies #[trigger] vs2[t] == values_for(o2, ks[t])
        && us2[t] == uses_of(o2, ks[t]) by {
        assert(vs[t] == values_for(o, ks[t]));
        if t != j {
            assert(ks[t] != ks[j]);
        }
    }
}

proof fn lemma_stats_new(
    ks: Seq<Seq<char>>,
    vs: Seq<Seq<Seq<char>>>,
    us: Seq<int>,
    o: Seq<(Seq<char>, Seq<char>)>,
    k: Seq<char>,
    v: Seq<char>,
)
    requires
        stats_hold(ks, vs, us, o),
        !ks.contains(k),
    ensures
        stats_hold(ks.push(k), vs.push(seq![v]), us.push(1), o.push((k, v))),
{
    let o2 = o.push((k, v));
    assert(o2.drop_last() =~= o);
    lemma_absent_key(o, k);
    let ks2 = ks.push(k);
    let vs2 = vs.push(seq![v]);
    let us2 = us.push(1);
    assert forall|t: int| 0 <= t < ks2.len() implies #[trigger] vs2[t] == values_for(o2, ks2[t])
        && us2[t] == uses_of(o2, ks2[t]) by {
        if t < ks.len() {
            assert(vs[t] == values_for(o, ks[t]));
            assert(ks[t] != k);
        } else {
            assert(values_for(o2, k) =~= seq![v]);
        }
    }
}

proof fn lemma_uses_all_bound(ks: Seq<Seq<char>>, vs: Seq<Seq<Seq<char>>>, us: Seq<int>, o: Seq<(Seq<char>, Seq<char>)>)
    requires
        stats_hold(ks, vs, us, o),
    ensures
        forall|j: int| 0 <= j < us.len() ==> #[trigger] us[j] <= o.len(),
{
    assert forall|j: int| 0 <= j < us.len() implies #[trigger] us[j] <= o.len() by {
        assert(vs[j] == values_for(o, ks[j]));
        lemma_uses_bound(o, ks[j]);
    }
}

fn key_stats(occ: &Vec<(String, String)>) -> (st: KeyStats)
    ensures
        stats_describe(st, pairs_view(occ@)),
{
    let ghost o = pairs_view(occ@);
    let mut keys: Vec<String> = Vec::new();
    let mut values: Vec<Vec<String>> = Vec::new();
    let mut uses: Vec<usize> = Vec::new();
    let mut i: usize = 0;
    assert(o.take(0) =~= Seq::<(Seq<char>, Seq<char>)>::empty());
    assert(strings_view(keys@) =~= Seq::<Seq<char>>::empty());
    assert(values_view(values@) =~= Seq::<Seq<Seq<char>>>::empty());
    assert(uses_view(uses@) =~= Seq::<int>::empty());
    while i < occ.len()
        invariant
            i <= occ.len(),
            o == pairs_view(occ@),
            stats_hold(strings_view(keys@), values_view(values@), uses_view(uses@), o.take(i as int)),
        decreases occ.len() - i,
    {
        let ghost pre = o.take(i as int);
        let ghost post = o.take(i + 1);
        let ghost ks = strings_view(keys@);
        let ghost vs = values_view(values@);
        let ghost us = uses_view(uses@);
        assert(post =~= pre.push((occ@[i as int].0@, occ@[i as int].1@)));
        let key = &occ[i].0;
        let val = &occ[i].1;
        proof {
            lemma_uses_all_bound(ks, vs, us, pre);
        }
        match index_of_string(&keys, key) {
            Some(j) => {
                assert(ks[j as int] == key@);
                let mut vv = copy_strings(&values[j]);
                assert(strings_view(vv@) == vs[j as int]);
                let present = contains_string(&vv, val);
                if !present {
                    let ghost before = strings_view(vv@);
                    vv.push(val.clone());
                    assert(strings_view(vv@) =~= before.push(val@));
                }
                assert(us[j as int] <= i);
                let n = uses[j];
                values.set(j, vv);
                uses.set(j, n + 1);
                proof {
                    lemma_stats_existing(ks, vs, us, pre, key@, val@, j as int);
                    assert(strings_view(keys@) == ks);
                    assert(values_view(values@) =~= vs.update(
                        j as int,
                        if vs[j as int].contains(val@) {
                            vs[j as int]
                        } else {
                            vs[j as int].push(val@)
                        },
                    ));
                    assert(uses_view(uses@) =~= us.update(j as int, us[j as int] + 1));
                }
            },
            None => {
                keys.push(key.clone());
                let mut vv: Vec<String> = Vec::new();
                vv.push(val.clone());
                values.push(vv);
                uses.push(1);
                proof {
                    lemma_stats_new(ks, vs, us, pre, key@, val@);
                    assert(strings_view(keys@) =~= ks.push(key@));
                    assert(strings_view(vv@) =~= seq![val@]);
                    assert(values_view(values@) =~= vs.push(seq![val@]));
                    assert(uses_view(uses@) =~= us.push(1));
                }
            },
        }
        i = i + 1;
    }
    assert(o.take(i as int) =~= o);
    KeyStats { keys, values, uses }
}

// ── Candidates ───────────────────────────────────────────────────────────────

/// The candidate for key `k`, if it qualifies.
pub open spec fn enum_candidate_for(
    occ: Seq<(Seq<char>, Seq<char>)>,
    k: Seq<char>,
    opts: ConvertOptions,
) -> Option<EnumV> {
    let vals = values_for(occ, k);
    let total = uses_of(occ, k);
    if vals.len() > MAX_ENUM_VALUES || total < opts.min_occurrences {
        None
    } else if !enum_saving_fits(vals, total) {
        None
    } else if enum_saving_spec(vals, total) < threshold_of(opts) {
        None
    } else {
        Some(
            EnumV {
                name: seq![],
                values: sort_seqs(vals),
                keys: seq![k],
                saving: enum_saving_spec(vals, total),
            },
        )
    }
}

/// The candidates of the keys `ks`, in that order.
pub open spec fn candidates_in(
    occ: Seq<(Seq<char>, Seq<char>)>,
    ks: Seq<Seq<char>>,
    opts: ConvertOptions,
) -> Seq<EnumV>
    decreases ks.len(),
{
    if ks.len() == 0 {
        seq![]
    } else {
        let p = candidates_in(occ, ks.drop_last(), opts);
        match enum_candidate_for(occ, ks.last(), opts) {
            Some(c) => p.push(c),
            None => p,
        }
    }
}

/// The enum candidates of a tree, by descending saving (keys of equal saving in
/// order of first occurrence).
pub open spec fn spec_detect_enums(root: NodeV, opts: ConvertOptions) -> Seq<EnumV> {
    let occ = string_occurrences(root);
    sort_desc(candidates_in(occ, first_keys(occ), opts), |c: EnumV| c.saving)
}

/// The strings of `v`, sorted.
fn sorted_strings(v: &Vec<String>) -> (r: Vec<String>)
    ensures
        strings_view(r@) == sort_seqs(strings_view(v@)),
{
    let ghost sv = strings_view(v@);
    let mut out: Vec<String> = Vec::new();
    let mut cs: Vec<Vec<char>> = Vec::new();
    let mut i: usize = 0;
    while i < v.len()
        invariant
            i <= v.len(),
            sv == strings_view(v@),
            strings_view(out@) == cs@.map_values(|k: Vec<char>| k@),
            strings_view(out@) == sort_seqs(sv.take(i as int)),
        decreases v.len() - i,
    {
        let x = chars_of(v[i].as_str());
        let ghost prev = cs@.map_values(|k: Vec<char>| k@);
        let p = find_insert_pos(&cs, &x);
        proof {
            lemma_insert_pos(prev, x@);
            assert(sv.take(i + 1).drop_last() =~= sv.take(i as int));
            assert(sv.take(i + 1).last() == x@);
        }
        out.insert(p, v[i].clone());
        cs.insert(p, x);
        proof {
            assert(cs@.map_values(|k: Vec<char>| k@) =~= insert_sorted(prev, x@));
            assert(strings_view(out@) =~= insert_sorted(prev, x@));
        }
        i = i + 1;
    }
    assert(sv.take(i as int) =~= sv);
    out
}

/// Inserts `c` after every candidate whose saving is not below its own.
fn insert_by_saving(out: &mut Vec<EnumCandidate>, c: EnumCandidate)
    ensures
        enums_view(final(out)@) == ({
            let p = enums_view(old(out)@);
            let k = stable_pos(p, c@, |e: EnumV| e.saving);
            p.take(k) + seq![c@] + p.skip(k)
        }),
{
    let ghost p = enums_view(out@);
    let ghost f = |e: EnumV| e.saving;
    let mut k: usize = 0;
    assert(p.skip(0) =~= p);
    while k < out.len() && out[k].saving >= c.saving
        invariant
            k <= out.len(),
            p == enums_view(out@),
            f == (|e: EnumV| e.saving),
            stable_pos(p, c@, f) == k + stable_pos(p.skip(k as int), c@, f),
        decreases out.len() - k,
    {
        assert(p.skip(k as int)[0] == p[k as int]);
        assert(p.skip(k as int).drop_first() =~= p.skip(k + 1));
        k = k + 1;
    }
    proof {
        if k < out.len() {
            assert(p.skip(k as int)[0] == p[k as int]);
        }
    }
    let ghost cv = c@;
    out.insert(k, c);
    assert(enums_view(out@) =~= p.take(k as int) + seq![cv] + p.skip(k as int));
}

/// Detects enum candidates, most impactful first.
pub fn detect(root: &Node, opts: &ConvertOptions) -> (r: Vec<EnumCandidate>)
    ensures
        enums_view(r@) == spec_detect_enums(root@, *opts),
{
    let mut occ: Vec<(String, String)> = Vec::new();
    collect_string_occurrences(root, &mut occ);
    assert(pairs_view(occ@) =~= string_occurrences(root@));
    let ghost o = pairs_view(occ@);
    let st = key_stats(&occ);
    let ghost ks = first_keys(o);
    let ghost f = |e: EnumV| e.saving;
    let mut out: Vec<EnumCandidate> = Vec::new();
    let mut j: usize = 0;
    while j < st.keys.len()
        invariant
            j <= st.keys.len(),
            o == pairs_view(occ@),
            o == string_occurrences(root@),
            ks == first_keys(o),
            f == (|e: EnumV| e.saving),
            stats_describe(st, o),
            st.keys@.len() == ks.len(),
            enums_view(out@) == sort_desc(candidates_in(o, ks.take(j as int), *opts), f),
        decreases st.keys.len() - j,
    {
        let ghost kj = st.keys@[j as int]@;
        assert(strings_view(st.keys@)[j as int] == kj);
        let ghost prev = candidates_in(o, ks.take(j as int), *opts);
        assert(ks[j as int] == kj);
        assert(ks.take(j + 1).drop_last() =~= ks.take(j as int));
        assert(ks.take(j + 1).last() == kj);
        let vals = &st.values[j];
        let total = st.uses[j];
        assert(values_view(st.values@)[j as int] == values_for(o, kj));
        assert(uses_view(st.uses@)[j as int] == uses_of(o, kj));
        assert(strings_view(vals@) == values_for(o, kj));
        assert(total as nat == uses_of(o, kj));
        let mut added = false;
        if vals.len() <= MAX_ENUM_VALUES && total >= opts.min_occurrences {
            match enum_saving_checked(vals, total) {
                Some(saving) => {
                    if saving >= opts.threshold as isize {
                        let sorted = sorted_strings(vals);
                        let mut keys: Vec<String> = Vec::new();
                        keys.push(st.keys[j].clone());
                        let c = EnumCandidate {
                            name: String::new(),
                            values: sorted,
                            keys,
                            saving,
                        };
                        assert(strings_view(keys@) =~= seq![kj]);
                        assert(c@ == enum_candidate_for(o, kj, *opts)->0);
                        assert(candidates_in(o, ks.take(j + 1), *opts) == prev.push(c@));
                        assert(prev.push(c@).drop_last() =~= prev);
                        insert_by_saving(&mut out, c);
                        added = true;
                    }
                },
                None => {},
            }
        }
        proof {
            if !added {
                assert(enum_candidate_for(o, kj, *opts) is None);
                assert(candidates_in(o, ks.take(j + 1), *opts) == prev);
            }
        }
        j = j + 1;
    }
    assert(ks.take(j as int) =~= ks);
    out
}

} // verus!
