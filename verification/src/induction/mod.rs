//! Induction: detection of optimisation opportunities in the tree.
//!
//! Enum induction analyses the frequency of string values; function induction
//! groups structurally identical records.
pub mod enums;
pub mod functions;
pub mod math;
pub mod laws;

use vstd::prelude::*;
use crate::ingestion::ir::Node;
use crate::induction::enums::{EnumCandidate, enums_view, spec_detect_enums};
use crate::induction::functions::{FuncCandidate, funcs_view, spec_detect_funcs};
use crate::{ConvertError, ConvertOptions};

verus! {

/// Where `x` goes among `s` (sorted by descending `f`) so that equal keys keep
/// their order: after every element whose key is not below `f(x)`.
pub open spec fn stable_pos<T>(s: Seq<T>, x: T, f: spec_fn(T) -> int) -> int
    decreases s.len(),
{
    if s.len() == 0 {
        0
    } else if f(s[0]) < f(x) {
        0
    } else {
        1 + stable_pos(s.drop_first(), x, f)
    }
}

/// `s` stably sorted by descending `f` (what `sort_by(|a, b| f(b).cmp(&f(a)))` gives).
pub open spec fn sort_desc<T>(s: Seq<T>, f: spec_fn(T) -> int) -> Seq<T>
    decreases s.len(),
{
    if s.len() == 0 {
        s
    } else {
        let p = sort_desc(s.drop_last(), f);
        let k = stable_pos(p, s.last(), f);
        p.take(k) + seq![s.last()] + p.skip(k)
    }
}

pub proof fn lemma_stable_pos<T>(s: Seq<T>, x: T, f: spec_fn(T) -> int)
    ensures
        0 <= stable_pos(s, x, f) <= s.len(),
        forall|k: int| 0 <= k < stable_pos(s, x, f) ==> f(x) <= f(#[trigger] s[k]),
        stable_pos(s, x, f) < s.len() ==> f(s[stable_pos(s, x, f)]) < f(x),
    decreases s.len(),
{
    if s.len() > 0 && !(f(s[0]) < f(x)) {
        lemma_stable_pos(s.drop_first(), x, f);
        assert forall|k: int| 0 <= k < stable_pos(s, x, f) implies f(x) <= f(#[trigger] s[k]) by {
            if k > 0 {
                assert(s[k] == s.drop_first()[k - 1]);
            }
        }
    }
}

/// `s` is ordered by descending `f`.
pub open spec fn sorted_desc<T>(s: Seq<T>, f: spec_fn(T) -> int) -> bool {
    forall|i: int, j: int| 0 <= i < j < s.len() ==> f(#[trigger] s[i]) >= f(#[trigger] s[j])
}

/// `sort_desc` orders by descending key and keeps every element.
pub proof fn lemma_sort_desc<T>(s: Seq<T>, f: spec_fn(T) -> int)
    ensures
        sorted_desc(sort_desc(s, f), f),
        sort_desc(s, f).len() == s.len(),
        sort_desc(s, f).to_multiset() == s.to_multiset(),
    decreases s.len(),
{
    if s.len() > 0 {
        let p = sort_desc(s.drop_last(), f);
        lemma_sort_desc(s.drop_last(), f);
        let x = s.last();
        let k = stable_pos(p, x, f);
        lemma_stable_pos(p, x, f);
        let r = p.take(k) + seq![x] + p.skip(k);
        assert forall|i: int, j: int| 0 <= i < j < r.len() implies f(#[trigger] r[i]) >= f(
            #[trigger] r[j],
        ) by {
            if j < k {
                assert(r[i] == p[i] && r[j] == p[j]);
            } else if j == k {
                assert(r[i] == p[i]);
            } else if i < k {
                assert(r[i] == p[i] && r[j] == p[j - 1]);
            } else if i == k {
                assert(r[j] == p[j - 1]);
                assert(f(p[k]) < f(x));
                if j - 1 > k {
                    assert(f(p[k]) >= f(p[j - 1]));
                }
            } else {
                assert(r[i] == p[i - 1] && r[j] == p[j - 1]);
            }
        }
        vstd::seq_lib::lemma_multiset_commutative(p.take(k), seq![x]);
        vstd::seq_lib::lemma_multiset_commutative(p.take(k) + seq![x], p.skip(k));
        vstd::seq_lib::lemma_multiset_commutative(p.take(k), p.skip(k));
        assert(p.take(k) + p.skip(k) =~= p);
        vstd::seq_lib::lemma_multiset_commutative(s.drop_last(), seq![x]);
        assert(s.drop_last() + seq![x] =~= s);
    }
}

/// Output of the induction phase.
#[derive(Debug)]
pub struct InductionResult {
    /// The tree that was analysed, unchanged.
    pub root: Node,
    /// Enum definitions for `@ENUMS`.
    pub enums: Vec<EnumCandidate>,
    /// Function definitions for `@QUICKFUNCS`.
    pub funcs: Vec<FuncCandidate>,
}

/// Runs enum and function induction on `root`.
pub fn analyse(root: &Node, opts: &ConvertOptions) -> (r: Result<InductionResult, ConvertError>)
    ensures
        r is Ok,
        r matches Ok(res) ==> res.root@ == root@ && enums_view(res.enums@) == spec_detect_enums(
            root@,
            *opts,
        ) && funcs_view(res.funcs@) == spec_detect_funcs(root@, *opts),
{
    let enums = enums::detect(root, opts);
    let funcs = functions::detect(root, opts);
    Ok(InductionResult { root: root.clone(), enums, funcs })
}

} // verus!
