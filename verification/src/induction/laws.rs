//! What induction promises of every tree: the candidates come by descending
//! saving; each enum candidate covers one key (no two share one), reaches the
//! threshold, has at most `MAX_ENUM_VALUES` values, sorted and distinct, which
//! are exactly the strings seen under that key; each QuickFunc candidate has at
//! least one parameter, reaches the threshold, and splits the keys its records
//! share into parameters (varying) and defaults (constant), the parameters in
//! ascending order when the records have distinct keys.
use vstd::prelude::*;
use crate::induction::enums::{
    EnumV, MAX_ENUM_VALUES, candidates_in, distinct, enum_candidate_for, first_keys,
    lemma_values_for_distinct, lemma_first_keys_distinct, lemma_absent_key,
    spec_detect_enums, string_occurrences, uses_of, values_for,
};
use crate::induction::functions::{
    FuncV, all_records, constant_in, defaults_of, field_func_candidates, func_candidates,
    item_func_candidates, params_of, records_of, spec_detect_funcs, try_extract, value_at,
};
use crate::induction::{lemma_sort_desc, sort_desc};
use crate::induction::math::{enum_saving_fits, enum_saving_spec};
use crate::ingestion::ir::{
    NodeV, key_index, node_eq, fields_unique, items_unique, keys_distinct, keys_of, lemma_skeleton_perm, skeleton_of,
    unique_keys,
};
use crate::text::{is_sorted, lemma_sort_seqs, seq_lt, sort_seqs};
use crate::{ConvertOptions, threshold_of};

verus! {

broadcast use vstd::seq_lib::group_seq_properties;

// ── Sorting keeps the elements ──────────────────────────────────────────────

proof fn lemma_sorted_members<T>(s: Seq<T>, f: spec_fn(T) -> int)
    ensures
        forall|i: int| 0 <= i < sort_desc(s, f).len() ==> s.contains(#[trigger] sort_desc(s, f)[i]),
{
    broadcast use vstd::seq_lib::to_multiset_contains;

    lemma_sort_desc(s, f);
    let t = sort_desc(s, f);
    assert forall|i: int| 0 <= i < t.len() implies s.contains(#[trigger] t[i]) by {
        assert(t.contains(t[i]));
        assert(t.to_multiset().count(t[i]) > 0);
        assert(s.to_multiset().count(t[i]) > 0);
    }
}

proof fn lemma_distinct_perm(a: Seq<Seq<char>>, b: Seq<Seq<char>>)
    requires
        distinct(a),
        a.to_multiset() == b.to_multiset(),
    ensures
        distinct(b),
{
    assert(a.no_duplicates());
    a.lemma_multiset_has_no_duplicates();
    b.lemma_multiset_has_no_duplicates_conv();
}

// ── Enum candidates ─────────────────────────────────────────────────────────

proof fn lemma_values_for_members(occ: Seq<(Seq<char>, Seq<char>)>, k: Seq<char>)
    ensures
        forall|v: Seq<char>| values_for(occ, k).contains(v) <==> #[trigger] occ.contains((k, v)),
    decreases occ.len(),
{
    if occ.len() > 0 {
        let p = occ.drop_last();
        lemma_values_for_members(p, k);
        assert forall|v: Seq<char>| values_for(occ, k).contains(v) <==> #[trigger] occ.contains((k, v)) by {
            if occ.contains((k, v)) {
                let t = choose|t: int| 0 <= t < occ.len() && occ[t] == (k, v);
                if t < p.len() {
                    assert(p[t] == (k, v));
                    assert(p.contains((k, v)));
                }
            }
            if p.contains((k, v)) {
                let t = choose|t: int| 0 <= t < p.len() && p[t] == (k, v);
                assert(occ[t] == (k, v));
            }
        }
    }
}

/// What every enum candidate of a tree satisfies.
pub open spec fn enum_qualifies(occ: Seq<(Seq<char>, Seq<char>)>, c: EnumV, opts: ConvertOptions) -> bool {
    &&& c.keys.len() == 1
    &&& c.saving >= threshold_of(opts)
    &&& c.values.len() <= MAX_ENUM_VALUES
    &&& is_sorted(c.values)
    &&& distinct(c.values)
    &&& uses_of(occ, c.keys[0]) >= opts.min_occurrences
    &&& forall|v: Seq<char>| c.values.contains(v) <==> #[trigger] occ.contains((c.keys[0], v))
}

proof fn lemma_candidate_qualifies(occ: Seq<(Seq<char>, Seq<char>)>, k: Seq<char>, opts: ConvertOptions)
    requires
        enum_candidate_for(occ, k, opts) is Some,
    ensures
        enum_qualifies(occ, enum_candidate_for(occ, k, opts)->0, opts),
{
    broadcast use vstd::seq_lib::to_multiset_contains;

    let vals = values_for(occ, k);
    let c = enum_candidate_for(occ, k, opts)->0;
    lemma_sort_seqs(vals);
    lemma_values_for_distinct(occ, k);
    lemma_distinct_perm(vals, sort_seqs(vals));
    lemma_values_for_members(occ, k);
    assert forall|v: Seq<char>| c.values.contains(v) <==> #[trigger] occ.contains((c.keys[0], v)) by {
        assert(c.values.to_multiset().count(v) == vals.to_multiset().count(v));
        assert(c.keys[0] == k);
    }
}

proof fn lemma_candidates_in_qualify(
    occ: Seq<(Seq<char>, Seq<char>)>,
    ks: Seq<Seq<char>>,
    opts: ConvertOptions,
)
    ensures
        forall|i: int|
            0 <= i < candidates_in(occ, ks, opts).len() ==> enum_qualifies(
                occ,
                #[trigger] candidates_in(occ, ks, opts)[i],
                opts,
            ),
    decreases ks.len(),
{
    if ks.len() > 0 {
        let p = candidates_in(occ, ks.drop_last(), opts);
        lemma_candidates_in_qualify(occ, ks.drop_last(), opts);
        if enum_candidate_for(occ, ks.last(), opts) is Some {
            lemma_candidate_qualifies(occ, ks.last(), opts);
            let c = enum_candidate_for(occ, ks.last(), opts)->0;
            assert(candidates_in(occ, ks, opts) == p.push(c));
            assert forall|i: int| 0 <= i < p.len() + 1 implies enum_qualifies(
                occ,
                #[trigger] p.push(c)[i],
                opts,
            ) by {
                if i < p.len() {
                    assert(p.push(c)[i] == p[i]);
                }
            }
        }
    }
}

/// The enum candidates of a tree come by descending saving.
pub proof fn enum_candidates_by_saving(root: NodeV, opts: ConvertOptions)
    ensures
        forall|i: int, j: int|
            0 <= i < j < spec_detect_enums(root, opts).len() ==> (#[trigger] spec_detect_enums(
                root,
                opts,
            )[i]).saving >= (#[trigger] spec_detect_enums(root, opts)[j]).saving,
{
    let occ = string_occurrences(root);
    let f = |c: EnumV| c.saving;
    lemma_sort_desc(candidates_in(occ, first_keys(occ), opts), f);
    assert(spec_detect_enums(root, opts) == sort_desc(candidates_in(occ, first_keys(occ), opts), f));
}

/// Every enum candidate of a tree covers one key seen at least
/// `min_occurrences` times, reaches the threshold, and has at most
/// `MAX_ENUM_VALUES` values, sorted and distinct: exactly the strings that the
/// key holds somewhere in the tree.
pub proof fn enum_candidates_qualify(root: NodeV, opts: ConvertOptions)
    ensures
        forall|i: int|
            0 <= i < spec_detect_enums(root, opts).len() ==> enum_qualifies(
                string_occurrences(root),
                #[trigger] spec_detect_enums(root, opts)[i],
                opts,
            ),
{
    let occ = string_occurrences(root);
    let f = |c: EnumV| c.saving;
    let s = candidates_in(occ, first_keys(occ), opts);
    lemma_candidates_in_qualify(occ, first_keys(occ), opts);
    lemma_sorted_members(s, f);
    assert(spec_detect_enums(root, opts) == sort_desc(s, f));
    assert forall|i: int| 0 <= i < spec_detect_enums(root, opts).len() implies enum_qualifies(
        occ,
        #[trigger] spec_detect_enums(root, opts)[i],
        opts,
    ) by {
        let c = spec_detect_enums(root, opts)[i];
        assert(s.contains(c));
        let t = choose|t: int| 0 <= t < s.len() && s[t] == c;
        assert(enum_qualifies(occ, s[t], opts));
    }
}

proof fn lemma_candidates_in_keys(
    occ: Seq<(Seq<char>, Seq<char>)>,
    ks: Seq<Seq<char>>,
    opts: ConvertOptions,
)
    ensures
        forall|i: int|
            0 <= i < candidates_in(occ, ks, opts).len() ==> ks.contains(
                (#[trigger] candidates_in(occ, ks, opts)[i]).keys[0],
            ),
        distinct(ks) ==> forall|i: int, j: int|
            0 <= i < j < candidates_in(occ, ks, opts).len() ==> (#[trigger] candidates_in(
                occ,
                ks,
                opts,
            )[i]).keys[0] != (#[trigger] candidates_in(occ, ks, opts)[j]).keys[0],
    decreases ks.len(),
{
    if ks.len() > 0 {
        let q = ks.drop_last();
        let p = candidates_in(occ, q, opts);
        lemma_candidates_in_keys(occ, q, opts);
        assert forall|x: Seq<char>| q.contains(x) implies ks.contains(x) by {
            let t = choose|t: int| 0 <= t < q.len() && q[t] == x;
            assert(ks[t] == x);
        }
        if enum_candidate_for(occ, ks.last(), opts) is Some {
            let c = enum_candidate_for(occ, ks.last(), opts)->0;
            assert(c.keys[0] == ks.last());
            assert(ks.contains(ks.last())) by {
                assert(ks[ks.len() - 1] == ks.last());
            }
            let r = p.push(c);
            assert(candidates_in(occ, ks, opts) == r);
            assert forall|i: int| 0 <= i < r.len() implies ks.contains((#[trigger] r[i]).keys[0]) by {
                if i < p.len() {
                    assert(r[i] == p[i]);
                }
            }
            if distinct(ks) {
                assert(distinct(q));
                assert forall|i: int, j: int| 0 <= i < j < r.len() implies (#[trigger] r[i]).keys[0]
                    != (#[trigger] r[j]).keys[0] by {
                    assert(r[i] == p[i]);
                    if j < p.len() {
                        assert(r[j] == p[j]);
                    } else {
                        assert(q.contains(p[i].keys[0]));
                        let t = choose|t: int| 0 <= t < q.len() && q[t] == p[i].keys[0];
                        assert(ks[t] == q[t]);
                        assert(ks[t] != ks[ks.len() - 1]);
                    }
                }
            }
        } else {
            assert(candidates_in(occ, ks, opts) == p);
            if distinct(ks) {
                assert(distinct(q));
            }
        }
    }
}

/// No two enum candidates of a tree are for the same key.
pub proof fn enum_candidates_distinct_keys(root: NodeV, opts: ConvertOptions)
    ensures
        forall|i: int, j: int|
            0 <= i < j < spec_detect_enums(root, opts).len() ==> (#[trigger] spec_detect_enums(
                root,
                opts,
            )[i]).keys[0] != (#[trigger] spec_detect_enums(root, opts)[j]).keys[0],
{
    broadcast use vstd::seq_lib::to_multiset_contains;

    let occ = string_occurrences(root);
    let f = |c: EnumV| c.saving;
    let ks = first_keys(occ);
    let s = candidates_in(occ, ks, opts);
    let t = sort_desc(s, f);
    lemma_first_keys_distinct(occ);
    lemma_candidates_in_keys(occ, ks, opts);
    lemma_sort_desc(s, f);
    assert(spec_detect_enums(root, opts) == t);
    assert(s.no_duplicates()) by {
        assert forall|i: int, j: int| 0 <= i < s.len() && 0 <= j < s.len() && i != j implies s[i]
            != s[j] by {
            if i < j {
                assert(s[i].keys[0] != s[j].keys[0]);
            } else {
                assert(s[j].keys[0] != s[i].keys[0]);
            }
        }
    }
    s.lemma_multiset_has_no_duplicates();
    t.lemma_multiset_has_no_duplicates_conv();
    assert forall|i: int, j: int| 0 <= i < j < t.len() implies (#[trigger] t[i]).keys[0] != (
    #[trigger] t[j]).keys[0] by {
        assert(t.contains(t[i]) && t.contains(t[j]));
        assert(t.to_multiset().count(t[i]) > 0 && t.to_multiset().count(t[j]) > 0);
        assert(s.contains(t[i]) && s.contains(t[j]));
        let a = choose|a: int| 0 <= a < s.len() && s[a] == t[i];
        let b = choose|b: int| 0 <= b < s.len() && s[b] == t[j];
        assert(t[i] != t[j]);
        assert(a != b);
        if a < b {
            assert(s[a].keys[0] != s[b].keys[0]);
        } else {
            assert(s[b].keys[0] != s[a].keys[0]);
        }
    }
}

proof fn lemma_candidates_in_has(
    occ: Seq<(Seq<char>, Seq<char>)>,
    ks: Seq<Seq<char>>,
    opts: ConvertOptions,
    t: int,
)
    requires
        0 <= t < ks.len(),
        enum_candidate_for(occ, ks[t], opts) is Some,
    ensures
        candidates_in(occ, ks, opts).contains(enum_candidate_for(occ, ks[t], opts)->0),
    decreases ks.len(),
{
    let q = ks.drop_last();
    let p = candidates_in(occ, q, opts);
    if t < ks.len() - 1 {
        assert(q[t] == ks[t]);
        lemma_candidates_in_has(occ, q, opts, t);
        let c = enum_candidate_for(occ, ks[t], opts)->0;
        let u = choose|u: int| 0 <= u < p.len() && p[u] == c;
        if enum_candidate_for(occ, ks.last(), opts) is Some {
            let d = enum_candidate_for(occ, ks.last(), opts)->0;
            assert(candidates_in(occ, ks, opts) == p.push(d));
            assert(p.push(d)[u] == c);
        } else {
            assert(candidates_in(occ, ks, opts) == p);
        }
    } else {
        let d = enum_candidate_for(occ, ks.last(), opts)->0;
        assert(candidates_in(occ, ks, opts) == p.push(d));
        assert(p.push(d)[p.len() as int] == d);
    }
}

/// Enum induction misses no key: every key that holds strings in the tree, is
/// used at least `min_occurrences` times, has at most `MAX_ENUM_VALUES`
/// distinct values and whose estimated saving reaches the threshold gets an
/// enum candidate of its own, with that saving.
pub proof fn enum_candidates_complete(root: NodeV, opts: ConvertOptions, k: Seq<char>)
    requires
        uses_of(string_occurrences(root), k) >= 1,
        uses_of(string_occurrences(root), k) >= opts.min_occurrences,
        values_for(string_occurrences(root), k).len() <= MAX_ENUM_VALUES,
        enum_saving_fits(values_for(string_occurrences(root), k), uses_of(string_occurrences(root), k)),
        enum_saving_spec(values_for(string_occurrences(root), k), uses_of(string_occurrences(root), k))
            >= threshold_of(opts),
    ensures
        exists|i: int|
            0 <= i < spec_detect_enums(root, opts).len() && (#[trigger] spec_detect_enums(root, opts)[i]).keys
                == seq![k] && spec_detect_enums(root, opts)[i].saving == enum_saving_spec(
                values_for(string_occurrences(root), k),
                uses_of(string_occurrences(root), k),
            ),
{
    broadcast use vstd::seq_lib::to_multiset_contains;

    let occ = string_occurrences(root);
    let ks = first_keys(occ);
    let f = |c: EnumV| c.saving;
    let s = candidates_in(occ, ks, opts);
    if !ks.contains(k) {
        lemma_absent_key(occ, k);
    }
    let t = choose|t: int| 0 <= t < ks.len() && ks[t] == k;
    let c = enum_candidate_for(occ, k, opts)->0;
    assert(enum_candidate_for(occ, k, opts) is Some);
    lemma_candidates_in_has(occ, ks, opts, t);
    lemma_sort_desc(s, f);
    let e = sort_desc(s, f);
    assert(spec_detect_enums(root, opts) == e);
    assert(s.to_multiset().count(c) > 0);
    assert(e.contains(c));
    let i = choose|i: int| 0 <= i < e.len() && e[i] == c;
    assert(e[i].keys == seq![k]);
}

// ── QuickFunc candidates ────────────────────────────────────────────────────

/// Every key of the skeleton is a parameter (when its values vary) or a default
/// (when they are constant, with the first record's value), and nothing else.
pub proof fn lemma_params_defaults(recs: Seq<Seq<(Seq<char>, NodeV)>>, skel: Seq<Seq<char>>)
    ensures
        params_of(recs, skel).len() + defaults_of(recs, skel).len() == skel.len(),
        forall|i: int|
            0 <= i < params_of(recs, skel).len() ==> skel.contains(
                #[trigger] params_of(recs, skel)[i],
            ) && !constant_in(recs, params_of(recs, skel)[i]),
        forall|i: int|
            0 <= i < defaults_of(recs, skel).len() ==> skel.contains(
                (#[trigger] defaults_of(recs, skel)[i]).0,
            ) && constant_in(recs, defaults_of(recs, skel)[i].0) && defaults_of(recs, skel)[i].1
                == value_at(recs[0], defaults_of(recs, skel)[i].0),
    decreases skel.len(),
{
    if skel.len() > 0 {
        let sk = skel.drop_last();
        lemma_params_defaults(recs, sk);
        let p = params_of(recs, sk);
        let d = defaults_of(recs, sk);
        assert forall|x: Seq<char>| sk.contains(x) implies skel.contains(x) by {
            let t = choose|t: int| 0 <= t < sk.len() && sk[t] == x;
            assert(skel[t] == x);
        }
        assert(skel.contains(skel.last())) by {
            assert(skel[skel.len() - 1] == skel.last());
        }
        if constant_in(recs, skel.last()) {
            assert(params_of(recs, skel) == p);
            let e = (skel.last(), value_at(recs[0], skel.last()));
            assert(defaults_of(recs, skel) == d.push(e));
            assert forall|i: int| 0 <= i < d.len() + 1 implies skel.contains(
                (#[trigger] d.push(e)[i]).0,
            ) && constant_in(recs, d.push(e)[i].0) && d.push(e)[i].1 == value_at(
                recs[0],
                d.push(e)[i].0,
            ) by {
                if i < d.len() {
                    assert(d.push(e)[i] == d[i]);
                }
            }
        } else {
            assert(defaults_of(recs, skel) == d);
            assert(params_of(recs, skel) == p.push(skel.last()));
            assert forall|i: int| 0 <= i < p.len() + 1 implies skel.contains(
                #[trigger] p.push(skel.last())[i],
            ) && !constant_in(recs, p.push(skel.last())[i]) by {
                if i < p.len() {
                    assert(p.push(skel.last())[i] == p[i]);
                }
            }
        }
    }
}

/// What every QuickFunc candidate of a tree satisfies.
pub open spec fn func_qualifies(c: FuncV, opts: ConvertOptions) -> bool {
    let recs = records_of(c.instances);
    let skel = skeleton_of(recs[0]);
    &&& all_records(c.instances)
    &&& recs.len() >= 1
    &&& recs.len() >= opts.min_occurrences
    &&& forall|r: int| 0 <= r < recs.len() ==> skeleton_of(#[trigger] recs[r]) == skel
    &&& c.params.len() > 0
    &&& c.saving >= threshold_of(opts)
    &&& c.params.len() + c.defaults.len() == skel.len()
    &&& forall|i: int|
        0 <= i < c.params.len() ==> skel.contains(#[trigger] c.params[i]) && !constant_in(
            recs,
            c.params[i],
        )
    &&& forall|i: int|
        0 <= i < c.defaults.len() ==> skel.contains((#[trigger] c.defaults[i]).0) && constant_in(
            recs,
            c.defaults[i].0,
        ) && c.defaults[i].1 == value_at(recs[0], c.defaults[i].0)
}

proof fn lemma_extract_qualifies(key: Seq<char>, xs: Seq<NodeV>, opts: ConvertOptions)
    requires
        try_extract(key, xs, opts) is Some,
    ensures
        func_qualifies(try_extract(key, xs, opts)->0, opts),
{
    let recs = records_of(xs);
    lemma_params_defaults(recs, skeleton_of(recs[0]));
}

proof fn lemma_func_candidates_qualify(n: NodeV, key: Seq<char>, opts: ConvertOptions)
    ensures
        forall|i: int|
            0 <= i < func_candidates(n, key, opts).len() ==> func_qualifies(
                #[trigger] func_candidates(n, key, opts)[i],
                opts,
            ),
    decreases n,
{
    if let NodeV::Array(xs) = n {
        {
            if xs.len() >= opts.min_occurrences {
                let head: Seq<FuncV> = match try_extract(key, xs, opts) {
                    Some(c) => seq![c],
                    None => seq![],
                };
                if try_extract(key, xs, opts) is Some {
                    lemma_extract_qualifies(key, xs, opts);
                    assert(head == seq![try_extract(key, xs, opts)->0]);
                    assert(func_qualifies(head[0], opts));
                }
                let tail = item_func_candidates(xs, xs.len() as int, opts);
                lemma_item_candidates_qualify(xs, xs.len() as int, opts);
                assert(func_candidates(n, key, opts) == head + tail);
                assert forall|i: int| 0 <= i < head.len() + tail.len() implies func_qualifies(
                    #[trigger] (head + tail)[i],
                    opts,
                ) by {
                    if i >= head.len() {
                        assert((head + tail)[i] == tail[i - head.len()]);
                    } else {
                        assert((head + tail)[i] == head[i]);
                    }
                }
                assert forall|i: int| 0 <= i < func_candidates(n, key, opts).len() implies func_qualifies(
                    #[trigger] func_candidates(n, key, opts)[i],
                    opts,
                ) by {
                    assert(func_candidates(n, key, opts)[i] == (head + tail)[i]);
                }
            } else {
                assert(func_candidates(n, key, opts).len() == 0);
            }
        }
    } else if let NodeV::Record(fs) = n {
        lemma_field_candidates_qualify(fs, fs.len() as int, opts);
        assert(func_candidates(n, key, opts) == field_func_candidates(fs, fs.len() as int, opts));
    } else {
        assert(func_candidates(n, key, opts).len() == 0);
    }
}

proof fn lemma_item_candidates_qualify(xs: Seq<NodeV>, k: int, opts: ConvertOptions)
    ensures
        forall|i: int|
            0 <= i < item_func_candidates(xs, k, opts).len() ==> func_qualifies(
                #[trigger] item_func_candidates(xs, k, opts)[i],
                opts,
            ),
    decreases xs, k,
{
    if 0 < k <= xs.len() {
        let a = item_func_candidates(xs, k - 1, opts);
        let b = func_candidates(xs[k - 1], seq![], opts);
        lemma_item_candidates_qualify(xs, k - 1, opts);
        lemma_func_candidates_qualify(xs[k - 1], seq![], opts);
        assert(item_func_candidates(xs, k, opts) == a + b);
        assert forall|i: int| 0 <= i < a.len() + b.len() implies func_qualifies(
            #[trigger] (a + b)[i],
            opts,
        ) by {
            if i >= a.len() {
                assert((a + b)[i] == b[i - a.len()]);
            }
        }
    }
}

proof fn lemma_field_candidates_qualify(fs: Seq<(Seq<char>, NodeV)>, k: int, opts: ConvertOptions)
    ensures
        forall|i: int|
            0 <= i < field_func_candidates(fs, k, opts).len() ==> func_qualifies(
                #[trigger] field_func_candidates(fs, k, opts)[i],
                opts,
            ),
    decreases fs, k,
{
    if 0 < k <= fs.len() {
        let a = field_func_candidates(fs, k - 1, opts);
        let b = func_candidates(fs[k - 1].1, fs[k - 1].0, opts);
        lemma_field_candidates_qualify(fs, k - 1, opts);
        lemma_func_candidates_qualify(fs[k - 1].1, fs[k - 1].0, opts);
        assert(field_func_candidates(fs, k, opts) == a + b);
        assert forall|i: int| 0 <= i < a.len() + b.len() implies func_qualifies(
            #[trigger] (a + b)[i],
            opts,
        ) by {
            if i >= a.len() {
                assert((a + b)[i] == b[i - a.len()]);
            }
        }
    }
}

/// The QuickFunc candidates of a tree come by descending saving.
pub proof fn func_candidates_by_saving(root: NodeV, opts: ConvertOptions)
    ensures
        forall|i: int, j: int|
            0 <= i < j < spec_detect_funcs(root, opts).len() ==> (#[trigger] spec_detect_funcs(
                root,
                opts,
            )[i]).saving >= (#[trigger] spec_detect_funcs(root, opts)[j]).saving,
{
    let f = |c: FuncV| c.saving;
    lemma_sort_desc(func_candidates(root, seq![], opts), f);
    assert(spec_detect_funcs(root, opts) == sort_desc(func_candidates(root, seq![], opts), f));
}

/// Every QuickFunc candidate of a tree stands for an array whose items are all
/// records, at least `min_occurrences` of them (and at least one), sharing one
/// skeleton; it has at least one
/// parameter and reaches the threshold; each key of the skeleton is a parameter
/// when its values vary and a default, with the first record's value, when
/// they do not.
pub proof fn func_candidates_qualify(root: NodeV, opts: ConvertOptions)
    ensures
        forall|i: int|
            0 <= i < spec_detect_funcs(root, opts).len() ==> func_qualifies(
                #[trigger] spec_detect_funcs(root, opts)[i],
                opts,
            ),
{
    let f = |c: FuncV| c.saving;
    let s = func_candidates(root, seq![], opts);
    lemma_func_candidates_qualify(root, seq![], opts);
    lemma_sorted_members(s, f);
    assert(spec_detect_funcs(root, opts) == sort_desc(s, f));
    assert forall|i: int| 0 <= i < spec_detect_funcs(root, opts).len() implies func_qualifies(
        #[trigger] spec_detect_funcs(root, opts)[i],
        opts,
    ) by {
        let c = spec_detect_funcs(root, opts)[i];
        assert(s.contains(c));
        let t = choose|t: int| 0 <= t < s.len() && s[t] == c;
        assert(func_qualifies(s[t], opts));
    }
}

// ── Parameter lists ─────────────────────────────────────────────────────────

proof fn lemma_items_unique_at(xs: Seq<NodeV>)
    requires
        items_unique(xs),
    ensures
        forall|i: int| 0 <= i < xs.len() ==> #[trigger] unique_keys(xs[i]),
    decreases xs.len(),
{
    if xs.len() > 0 {
        lemma_items_unique_at(xs.drop_last());
        assert forall|i: int| 0 <= i < xs.len() implies #[trigger] unique_keys(xs[i]) by {
            if i < xs.len() - 1 {
                assert(xs[i] == xs.drop_last()[i]);
            }
        }
    }
}

proof fn lemma_fields_unique_at(fs: Seq<(Seq<char>, NodeV)>)
    requires
        fields_unique(fs),
    ensures
        forall|i: int| 0 <= i < fs.len() ==> #[trigger] unique_keys(fs[i].1),
    decreases fs.len(),
{
    if fs.len() > 0 {
        lemma_fields_unique_at(fs.drop_last());
        assert forall|i: int| 0 <= i < fs.len() implies #[trigger] unique_keys(fs[i].1) by {
            if i < fs.len() - 1 {
                assert(fs[i] == fs.drop_last()[i]);
            }
        }
    }
}

/// Each record among the items is the fields of one of the items.
proof fn lemma_records_of_items(xs: Seq<NodeV>)
    ensures
        forall|r: int|
            0 <= r < records_of(xs).len() ==> exists|i: int|
                0 <= i < xs.len() && xs[i] == NodeV::Record(#[trigger] records_of(xs)[r]),
    decreases xs.len(),
{
    if xs.len() > 0 {
        let p = xs.drop_last();
        lemma_records_of_items(p);
        assert forall|r: int| 0 <= r < records_of(xs).len() implies exists|i: int|
            0 <= i < xs.len() && xs[i] == NodeV::Record(#[trigger] records_of(xs)[r]) by {
            if r < records_of(p).len() {
                assert(records_of(xs)[r] == records_of(p)[r]);
                let i = choose|i: int| 0 <= i < p.len() && p[i] == NodeV::Record(records_of(p)[r]);
                assert(xs[i] == p[i]);
            } else {
                assert(xs[xs.len() - 1] == xs.last());
            }
        }
    }
}

/// The skeleton of a record with distinct keys is sorted and has no repeats.
proof fn lemma_skeleton_distinct(fs: Seq<(Seq<char>, NodeV)>)
    requires
        keys_distinct(fs),
    ensures
        is_sorted(skeleton_of(fs)),
        distinct(skeleton_of(fs)),
{
    lemma_skeleton_perm(fs);
    let ks = keys_of(fs);
    assert forall|i: int, j: int| 0 <= i < j < ks.len() implies #[trigger] ks[i] != #[trigger] ks[j] by {
        assert(ks[i] == fs[i].0 && ks[j] == fs[j].0);
    }
    lemma_distinct_perm(ks, skeleton_of(fs));
}

/// The parameters keep the skeleton's order: sorted, with no repeats.
proof fn lemma_params_sorted(recs: Seq<Seq<(Seq<char>, NodeV)>>, skel: Seq<Seq<char>>)
    requires
        is_sorted(skel),
        distinct(skel),
    ensures
        is_sorted(params_of(recs, skel)),
        distinct(params_of(recs, skel)),
    decreases skel.len(),
{
    if skel.len() > 0 {
        let sk = skel.drop_last();
        let p = params_of(recs, sk);
        assert(is_sorted(sk)) by {
            assert forall|i: int, j: int| 0 <= i < j < sk.len() implies !seq_lt(
                #[trigger] sk[j],
                #[trigger] sk[i],
            ) by {
                assert(sk[i] == skel[i] && sk[j] == skel[j]);
            }
        }
        assert(distinct(sk));
        lemma_params_sorted(recs, sk);
        lemma_params_defaults(recs, sk);
        if !constant_in(recs, skel.last()) {
            let q = p.push(skel.last());
            assert(params_of(recs, skel) == q);
            assert forall|i: int, j: int| 0 <= i < j < q.len() implies !seq_lt(
                #[trigger] q[j],
                #[trigger] q[i],
            ) && q[i] != q[j] by {
                assert(q[i] == p[i]);
                if j < p.len() {
                    assert(q[j] == p[j]);
                } else {
                    assert(sk.contains(p[i]));
                    let t = choose|t: int| 0 <= t < sk.len() && sk[t] == p[i];
                    assert(skel[t] == p[i]);
                    assert(q[j] == skel[skel.len() - 1]);
                }
            }
        }
    }
}

/// A candidate's parameters for records with distinct keys are sorted with no repeats.
proof fn lemma_candidates_params(n: NodeV, key: Seq<char>, opts: ConvertOptions)
    requires
        unique_keys(n),
    ensures
        forall|i: int|
            0 <= i < func_candidates(n, key, opts).len() ==> is_sorted(
                (#[trigger] func_candidates(n, key, opts)[i]).params,
            ) && distinct(func_candidates(n, key, opts)[i].params),
    decreases n,
{
    if let NodeV::Array(xs) = n {
        if xs.len() >= opts.min_occurrences {
            let head: Seq<FuncV> = match try_extract(key, xs, opts) {
                Some(c) => seq![c],
                None => seq![],
            };
            lemma_items_unique_at(xs);
            if try_extract(key, xs, opts) is Some {
                let recs = records_of(xs);
                lemma_records_of_items(xs);
                let i0 = choose|i: int| 0 <= i < xs.len() && xs[i] == NodeV::Record(#[trigger] recs[0]);
                assert(unique_keys(xs[i0]));
                lemma_skeleton_distinct(recs[0]);
                lemma_params_sorted(recs, skeleton_of(recs[0]));
                assert(head == seq![try_extract(key, xs, opts)->0]);
            }
            let tail = item_func_candidates(xs, xs.len() as int, opts);
            lemma_item_candidates_params(xs, xs.len() as int, opts);
            assert(func_candidates(n, key, opts) == head + tail);
            assert forall|i: int| 0 <= i < head.len() + tail.len() implies is_sorted(
                (#[trigger] (head + tail)[i]).params,
            ) && distinct((head + tail)[i].params) by {
                if i >= head.len() {
                    assert((head + tail)[i] == tail[i - head.len()]);
                } else {
                    assert((head + tail)[i] == head[i]);
                }
            }
            assert forall|i: int| 0 <= i < func_candidates(n, key, opts).len() implies is_sorted(
                (#[trigger] func_candidates(n, key, opts)[i]).params,
            ) && distinct(func_candidates(n, key, opts)[i].params) by {
                assert(func_candidates(n, key, opts)[i] == (head + tail)[i]);
            }
        } else {
            assert(func_candidates(n, key, opts).len() == 0);
        }
    } else if let NodeV::Record(fs) = n {
        lemma_fields_unique_at(fs);
        lemma_field_candidates_params(fs, fs.len() as int, opts);
        assert(func_candidates(n, key, opts) == field_func_candidates(fs, fs.len() as int, opts));
    } else {
        assert(func_candidates(n, key, opts).len() == 0);
    }
}

proof fn lemma_item_candidates_params(xs: Seq<NodeV>, k: int, opts: ConvertOptions)
    requires
        forall|i: int| 0 <= i < xs.len() ==> #[trigger] unique_keys(xs[i]),
    ensures
        forall|i: int|
            0 <= i < item_func_candidates(xs, k, opts).len() ==> is_sorted(
                (#[trigger] item_func_candidates(xs, k, opts)[i]).params,
            ) && distinct(item_func_candidates(xs, k, opts)[i].params),
    decreases xs, k,
{
    if 0 < k <= xs.len() {
        let a = item_func_candidates(xs, k - 1, opts);
        let b = func_candidates(xs[k - 1], seq![], opts);
        lemma_item_candidates_params(xs, k - 1, opts);
        lemma_candidates_params(xs[k - 1], seq![], opts);
        assert(item_func_candidates(xs, k, opts) == a + b);
        assert forall|i: int| 0 <= i < a.len() + b.len() implies is_sorted(
            (#[trigger] (a + b)[i]).params,
        ) && distinct((a + b)[i].params) by {
            if i >= a.len() {
                assert((a + b)[i] == b[i - a.len()]);
            }
        }
    }
}

proof fn lemma_field_candidates_params(fs: Seq<(Seq<char>, NodeV)>, k: int, opts: ConvertOptions)
    requires
        forall|i: int| 0 <= i < fs.len() ==> #[trigger] unique_keys(fs[i].1),
    ensures
        forall|i: int|
            0 <= i < field_func_candidates(fs, k, opts).len() ==> is_sorted(
                (#[trigger] field_func_candidates(fs, k, opts)[i]).params,
            ) && distinct(field_func_candidates(fs, k, opts)[i].params),
    decreases fs, k,
{
    if 0 < k <= fs.len() {
        let a = field_func_candidates(fs, k - 1, opts);
        let b = func_candidates(fs[k - 1].1, fs[k - 1].0, opts);
        lemma_field_candidates_params(fs, k - 1, opts);
        lemma_candidates_params(fs[k - 1].1, fs[k - 1].0, opts);
        assert(field_func_candidates(fs, k, opts) == a + b);
        assert forall|i: int| 0 <= i < a.len() + b.len() implies is_sorted(
            (#[trigger] (a + b)[i]).params,
        ) && distinct((a + b)[i].params) by {
            if i >= a.len() {
                assert((a + b)[i] == b[i - a.len()]);
            }
        }
    }
}

/// When every record of the tree has distinct keys (as every parsed tree has),
/// each QuickFunc candidate's parameters come in ascending order, with no repeats.
pub proof fn func_params_sorted(root: NodeV, opts: ConvertOptions)
    requires
        unique_keys(root),
    ensures
        forall|i: int|
            0 <= i < spec_detect_funcs(root, opts).len() ==> is_sorted(
                (#[trigger] spec_detect_funcs(root, opts)[i]).params,
            ) && distinct(spec_detect_funcs(root, opts)[i].params),
{
    let f = |c: FuncV| c.saving;
    let s = func_candidates(root, seq![], opts);
    lemma_candidates_params(root, seq![], opts);
    lemma_sorted_members(s, f);
    assert(spec_detect_funcs(root, opts) == sort_desc(s, f));
    assert forall|i: int| 0 <= i < spec_detect_funcs(root, opts).len() implies is_sorted(
        (#[trigger] spec_detect_funcs(root, opts)[i]).params,
    ) && distinct(spec_detect_funcs(root, opts)[i].params) by {
        let c = spec_detect_funcs(root, opts)[i];
        assert(s.contains(c));
        let t = choose|t: int| 0 <= t < s.len() && s[t] == c;
        assert(is_sorted(s[t].params));
    }
}

/// A QuickFunc default is a key whose value is the same in every instance
/// record: each record has the key, with a value equal to the first record's.
/// A parameter is a key for which some record differs: it lacks the key, or
/// holds a value not equal to the first record's.
pub proof fn func_defaults_hold_in_every_record(root: NodeV, opts: ConvertOptions, i: int)
    requires
        0 <= i < spec_detect_funcs(root, opts).len(),
    ensures
        forall|d: int, r: int|
            #![trigger spec_detect_funcs(root, opts)[i].defaults[d], records_of(spec_detect_funcs(root, opts)[i].instances)[r]]
            0 <= d < spec_detect_funcs(root, opts)[i].defaults.len() && 0 <= r < records_of(
                spec_detect_funcs(root, opts)[i].instances,
            ).len() ==> key_index(
                records_of(spec_detect_funcs(root, opts)[i].instances)[r],
                spec_detect_funcs(root, opts)[i].defaults[d].0,
            ) >= 0 && node_eq(
                value_at(
                    records_of(spec_detect_funcs(root, opts)[i].instances)[r],
                    spec_detect_funcs(root, opts)[i].defaults[d].0,
                ),
                value_at(
                    records_of(spec_detect_funcs(root, opts)[i].instances)[0],
                    spec_detect_funcs(root, opts)[i].defaults[d].0,
                ),
            ),
        forall|p: int|
            #![trigger spec_detect_funcs(root, opts)[i].params[p]]
            0 <= p < spec_detect_funcs(root, opts)[i].params.len() ==> exists|r: int|
                0 <= r < records_of(spec_detect_funcs(root, opts)[i].instances).len() && !(key_index(
                    #[trigger] records_of(spec_detect_funcs(root, opts)[i].instances)[r],
                    spec_detect_funcs(root, opts)[i].params[p],
                ) >= 0 && node_eq(
                    value_at(
                        records_of(spec_detect_funcs(root, opts)[i].instances)[r],
                        spec_detect_funcs(root, opts)[i].params[p],
                    ),
                    value_at(
                        records_of(spec_detect_funcs(root, opts)[i].instances)[0],
                        spec_detect_funcs(root, opts)[i].params[p],
                    ),
                )),
{
    func_candidates_qualify(root, opts);
    let c = spec_detect_funcs(root, opts)[i];
    let recs = records_of(c.instances);
    assert(func_qualifies(c, opts));
    assert forall|d: int, r: int|
        #![trigger c.defaults[d], recs[r]]
        0 <= d < c.defaults.len() && 0 <= r < recs.len() implies key_index(recs[r], c.defaults[d].0)
        >= 0 && node_eq(value_at(recs[r], c.defaults[d].0), value_at(recs[0], c.defaults[d].0)) by {
        assert(constant_in(recs, c.defaults[d].0));
    }
    assert forall|p: int| #![trigger c.params[p]] 0 <= p < c.params.len() implies exists|r: int|
        0 <= r < recs.len() && !(key_index(#[trigger] recs[r], c.params[p]) >= 0 && node_eq(
            value_at(recs[r], c.params[p]),
            value_at(recs[0], c.params[p]),
        )) by {
        assert(!constant_in(recs, c.params[p]));
    }
}

} // verus!
