//! Function induction: grouping of structurally identical records.
//!
//!   1. Walk the arrays of the tree.
//!   2. Take the structural skeleton (sorted key names) of each record in an array.
//!   3. When all records of an array share one skeleton, split its keys into those
//!      whose values vary (parameters) and those that are constant (defaults).
//!   4. Keep the array when the estimated saving reaches the threshold.
use vstd::prelude::*;
use crate::ingestion::ir::{
    Node, NodeV, Record, fields_view, key_index, lemma_array_view, lemma_key_index,
    lemma_record_view, node_eq, node_view, skeleton_of,
};
use crate::induction::math::{func_saving_checked, func_saving_fits, func_saving_spec};
use crate::induction::{sort_desc, stable_pos};
use crate::text::{chars_eq, string_from_chars};
use crate::{ConvertOptions, threshold_of};

verus! {

/// A repeated record shape to be turned into a QuickFunc.
#[derive(Debug, Clone)]
pub struct FuncCandidate {
    /// Resolved name (set by the naming phase; the array's key singularised).
    pub name: String,
    /// Keys whose values vary across instances; they become parameters.
    pub param_keys: Vec<String>,
    /// Keys whose values are constant across instances, with that value.
    pub defaults: Vec<(String, Node)>,
    /// All items of the array (used for `@DATA` call generation).
    pub instances: Vec<Node>,
    /// Estimated character saving.
    pub saving: isize,
}

/// The value of a `FuncCandidate`.
pub struct FuncV {
    pub name: Seq<char>,
    pub params: Seq<Seq<char>>,
    pub defaults: Seq<(Seq<char>, NodeV)>,
    pub instances: Seq<NodeV>,
    pub saving: int,
}

impl View for FuncCandidate {
    type V = FuncV;

    open spec fn view(&self) -> FuncV {
        FuncV {
            name: self.name@,
            params: self.param_keys@.map_values(|s: String| s@),
            defaults: fields_view(self.defaults@),
            instances: self.instances@.map_values(|n: Node| node_view(n)),
            saving: self.saving as int,
        }
    }
}

pub open spec fn funcs_view(v: Seq<FuncCandidate>) -> Seq<FuncV> {
    v.map_values(|c: FuncCandidate| c@)
}

// ── Specification ────────────────────────────────────────────────────────────

/// The fields of the records among `xs`, in order.
pub open spec fn records_of(xs: Seq<NodeV>) -> Seq<Seq<(Seq<char>, NodeV)>>
    decreases xs.len(),
{
    if xs.len() == 0 {
        seq![]
    } else {
        let p = records_of(xs.drop_last());
        match xs.last() {
            NodeV::Record(fs) => p.push(fs),
            _ => p,
        }
    }
}

/// The value of the first field named `k`.
pub open spec fn value_at(fs: Seq<(Seq<char>, NodeV)>, k: Seq<char>) -> NodeV {
    fs[key_index(fs, k)].1
}

/// Every record has a field `k` whose value equals that of the first record.
pub open spec fn constant_in(recs: Seq<Seq<(Seq<char>, NodeV)>>, k: Seq<char>) -> bool {
    forall|r: int|
        0 <= r < recs.len() ==> key_index(#[trigger] recs[r], k) >= 0 && node_eq(
            value_at(recs[r], k),
            value_at(recs[0], k),
        )
}

/// The keys of `skel` whose values vary.
pub open spec fn params_of(recs: Seq<Seq<(Seq<char>, NodeV)>>, skel: Seq<Seq<char>>) -> Seq<Seq<char>>
    decreases skel.len(),
{
    if skel.len() == 0 {
        seq![]
    } else {
        let p = params_of(recs, skel.drop_last());
        if constant_in(recs, skel.last()) {
            p
        } else {
            p.push(skel.last())
        }
    }
}

/// The keys of `skel` whose values are constant, with the first record's value.
pub open spec fn defaults_of(recs: Seq<Seq<(Seq<char>, NodeV)>>, skel: Seq<Seq<char>>) -> Seq<(Seq<char>, NodeV)>
    decreases skel.len(),
{
    if skel.len() == 0 {
        seq![]
    } else {
        let p = defaults_of(recs, skel.drop_last());
        if constant_in(recs, skel.last()) {
            p.push((skel.last(), value_at(recs[0], skel.last())))
        } else {
            p
        }
    }
}

/// Every item is a record.
pub open spec fn all_records(xs: Seq<NodeV>) -> bool {
    forall|i: int| 0 <= i < xs.len() ==> #[trigger] xs[i] is Record
}

/// The records among the items are all the items exactly when every item is a record.
pub proof fn lemma_all_records(xs: Seq<NodeV>)
    ensures
        records_of(xs).len() <= xs.len(),
        (records_of(xs).len() == xs.len()) == all_records(xs),
    decreases xs.len(),
{
    if xs.len() > 0 {
        let p = xs.drop_last();
        lemma_all_records(p);
        if all_records(xs) {
            assert forall|i: int| 0 <= i < p.len() implies #[trigger] p[i] is Record by {
                assert(p[i] == xs[i]);
            }
            assert(xs[xs.len() - 1] is Record);
        }
        if all_records(p) && xs.last() is Record {
            assert forall|i: int| 0 <= i < xs.len() implies #[trigger] xs[i] is Record by {
                if i < p.len() {
                    assert(p[i] == xs[i]);
                }
            }
        }
        if !(xs.last() is Record) {
            assert(!(xs[xs.len() - 1] is Record));
        }
    }
}

/// The QuickFunc for the array `xs` found under `key`, if it qualifies: a
/// homogeneous array of at least `min_occurrences` records (and at least one),
/// every item a record, all with one skeleton, at least one varying key, and an
/// estimated saving that reaches the threshold.
pub open spec fn try_extract(key: Seq<char>, xs: Seq<NodeV>, opts: ConvertOptions) -> Option<FuncV> {
    let recs = records_of(xs);
    let skel = skeleton_of(recs[0]);
    let params = params_of(recs, skel);
    let defaults = defaults_of(recs, skel);
    if !all_records(xs) || recs.len() == 0 || recs.len() < opts.min_occurrences {
        None
    } else if !(forall|r: int| 0 <= r < recs.len() ==> skeleton_of(#[trigger] recs[r]) == skel) {
        None
    } else if params.len() == 0 {
        None
    } else if !func_saving_fits(params.len(), defaults.len(), recs.len()) {
        None
    } else if func_saving_spec(params.len(), defaults.len(), recs.len()) < threshold_of(opts) {
        None
    } else {
        Some(
            FuncV {
                name: key,
                params,
                defaults,
                instances: xs,
                saving: func_saving_spec(params.len(), defaults.len(), recs.len()),
            },
        )
    }
}

/// The candidates found in `n`, reached under `key`, in document order: an array
/// with at least `min_occurrences` items is tried and its items searched (under
/// no key); a record's values are searched under their keys.
pub open spec fn func_candidates(n: NodeV, key: Seq<char>, opts: ConvertOptions) -> Seq<FuncV>
    decreases n,
{
    match n {
        NodeV::Array(xs) => if xs.len() >= opts.min_occurrences {
            (match try_extract(key, xs, opts) {
                Some(c) => seq![c],
                None => seq![],
            }) + item_func_candidates(xs, xs.len() as int, opts)
        } else {
            seq![]
        },
        NodeV::Record(fs) => field_func_candidates(fs, fs.len() as int, opts),
        _ => seq![],
    }
}

pub open spec fn item_func_candidates(xs: Seq<NodeV>, k: int, opts: ConvertOptions) -> Seq<FuncV>
    decreases xs, k,
{
    if k <= 0 || k > xs.len() {
        seq![]
    } else {
        item_func_candidates(xs, k - 1, opts) + func_candidates(xs[k - 1], seq![], opts)
    }
}

pub open spec fn field_func_candidates(fs: Seq<(Seq<char>, NodeV)>, k: int, opts: ConvertOptions) -> Seq<FuncV>
    decreases fs, k,
{
    if k <= 0 || k > fs.len() {
        seq![]
    } else {
        field_func_candidates(fs, k - 1, opts) + func_candidates(fs[k - 1].1, fs[k - 1].0, opts)
    }
}

/// The QuickFunc candidates of a tree, by descending saving (equal savings in
/// document order).
pub open spec fn spec_detect_funcs(root: NodeV, opts: ConvertOptions) -> Seq<FuncV> {
    sort_desc(func_candidates(root, seq![], opts), |c: FuncV| c.saving)
}

// ── Implementation ──────────────────────────────────────────────────────────

pub open spec fn records_view(v: Seq<&Record>) -> Seq<Seq<(Seq<char>, NodeV)>> {
    v.map_values(|r: &Record| r@)
}

fn records_among<'a>(items: &'a Vec<Node>) -> (r: Vec<&'a Record>)
    ensures
        records_view(r@) == records_of(items@.map_values(|n: Node| node_view(n))),
{
    let ghost xs = items@.map_values(|n: Node| node_view(n));
    let mut r: Vec<&'a Record> = Vec::new();
    let mut i: usize = 0;
    while i < items.len()
        invariant
            i <= items.len(),
            xs == items@.map_values(|n: Node| node_view(n)),
            records_view(r@) == records_of(xs.take(i as int)),
        decreases items.len() - i,
    {
        assert(xs.take(i + 1).drop_last() =~= xs.take(i as int));
        assert(xs.take(i + 1).last() == node_view(items@[i as int]));
        let ghost prev = records_view(r@);
        match &items[i] {
            Node::Record(rec) => {
                proof {
                    lemma_record_view(*rec);
                }
                r.push(rec);
                assert(records_view(r@) =~= prev.push(rec@));
            },
            _ => {},
        }
        i = i + 1;
    }
    assert(xs.take(i as int) =~= xs);
    r
}

fn skeletons_equal(a: &Vec<Vec<char>>, b: &Vec<Vec<char>>) -> (r: bool)
    ensures
        r == (a@.map_values(|k: Vec<char>| k@) == b@.map_values(|k: Vec<char>| k@)),
{
    let ghost av = a@.map_values(|k: Vec<char>| k@);
    let ghost bv = b@.map_values(|k: Vec<char>| k@);
    if a.len() != b.len() {
        assert(av.len() != bv.len());
        return false;
    }
    let mut i: usize = 0;
    while i < a.len()
        invariant
            i <= a.len() == b.len(),
            av == a@.map_values(|k: Vec<char>| k@),
            bv == b@.map_values(|k: Vec<char>| k@),
            forall|j: int| 0 <= j < i ==> av[j] == bv[j],
        decreases a.len() - i,
    {
        if !chars_eq(&a[i], &b[i]) {
            assert(av[i as int] != bv[i as int]);
            return false;
        }
        i = i + 1;
    }
    assert(av =~= bv);
    true
}

/// Whether `key` has in every record the value `first` has in the first.
fn key_is_constant(records: &Vec<&Record>, key: &str, first: &Node) -> (r: bool)
    requires
        records@.len() > 0,
        key_index(records@[0]@, key@) >= 0,
        first@ == value_at(records@[0]@, key@),
    ensures
        r == constant_in(records_view(records@), key@),
{
    let ghost recs = records_view(records@);
    let mut i: usize = 0;
    while i < records.len()
        invariant
            i <= records.len(),
            recs == records_view(records@),
            records@.len() > 0,
            key_index(recs[0], key@) >= 0,
            first@ == value_at(recs[0], key@),
            forall|t: int|
                0 <= t < i ==> key_index(#[trigger] recs[t], key@) >= 0 && node_eq(
                    value_at(recs[t], key@),
                    value_at(recs[0], key@),
                ),
        decreases records.len() - i,
    {
        assert(recs[i as int] == records@[i as int]@);
        match records[i].get(key) {
            Some(v) => {
                proof {
                    lemma_key_index(recs[i as int], key@);
                    assert(v@ == value_at(recs[i as int], key@));
                }
                if !(v == first) {
                    return false;
                }
            },
            None => {
                return false;
            },
        }
        i = i + 1;
    }
    true
}

/// Tries to extract a QuickFunc from an array of records.
fn try_extract_func(source_key: &Vec<char>, items: &Vec<Node>, opts: &ConvertOptions) -> (r: Option<FuncCandidate>)
    ensures
        match r {
            Some(c) => try_extract(
                source_key@,
                items@.map_values(|n: Node| node_view(n)),
                *opts,
            ) == Some(c@),
            None => try_extract(source_key@, items@.map_values(|n: Node| node_view(n)), *opts)
                is None,
        },
{
    let ghost xs = items@.map_values(|n: Node| node_view(n));
    let records = records_among(items);
    let ghost recs = records_view(records@);
    proof {
        lemma_all_records(xs);
    }
    if records.len() != items.len() || records.len() == 0 || records.len() < opts.min_occurrences {
        return None;
    }
    assert(recs[0] == records@[0]@);
    let rec0: &Record = records[0];
    let skeleton = rec0.skeleton_chars();
    let ghost skel = skeleton@.map_values(|k: Vec<char>| k@);
    let mut i: usize = 0;
    while i < records.len()
        invariant
            i <= records.len(),
            recs == records_view(records@),
            recs == records_of(items@.map_values(|n: Node| node_view(n))),
            recs.len() > 0,
            recs.len() >= opts.min_occurrences,
            skel == skeleton_of(recs[0]),
            skel == skeleton@.map_values(|k: Vec<char>| k@),
            forall|t: int| 0 <= t < i ==> skeleton_of(#[trigger] recs[t]) == skel,
        decreases records.len() - i,
    {
        let rec: &Record = records[i];
        let s = rec.skeleton_chars();
        assert(recs[i as int] == records@[i as int]@);
        assert(rec@ == recs[i as int]);
        if !skeletons_equal(&s, &skeleton) {
            assert(skeleton_of(recs[i as int]) != skel);
            return None;
        }
        i = i + 1;
    }
    let mut param_keys: Vec<String> = Vec::new();
    let mut defaults: Vec<(String, Node)> = Vec::new();
    let mut k: usize = 0;
    while k < skeleton.len()
        invariant
            k <= skeleton.len(),
            records@.len() > 0,
            recs == records_view(records@),
            skel == skeleton@.map_values(|k: Vec<char>| k@),
            skel == skeleton_of(recs[0]),
            param_keys@.map_values(|s: String| s@) == params_of(recs, skel.take(k as int)),
            fields_view(defaults@) == defaults_of(recs, skel.take(k as int)),
        decreases skeleton.len() - k,
    {
        assert(skel.take(k + 1).drop_last() =~= skel.take(k as int));
        assert(skel.take(k + 1).last() == skeleton@[k as int]@);
        let key = string_from_chars(skeleton[k].as_slice());
        assert(recs[0] == records@[0]@);
        let first_val = match records[0].get(key.as_str()) {
            Some(v) => v,
            None => {
                proof {
                    lemma_skeleton_keys(recs[0], skel, k as int);
                }
                return None;
            },
        };
        proof {
            lemma_key_index(recs[0], key@);
            assert(first_val@ == value_at(recs[0], key@));
        }
        let constant = key_is_constant(&records, key.as_str(), first_val);
        if constant {
            let ghost prev = fields_view(defaults@);
            let v = first_val.clone();
            defaults.push((key, v));
            assert(fields_view(defaults@) =~= prev.push((key@, value_at(recs[0], key@))));
        } else {
            let ghost prev = param_keys@.map_values(|s: String| s@);
            param_keys.push(key);
            assert(param_keys@.map_values(|s: String| s@) =~= prev.push(key@));
        }
        k = k + 1;
    }
    assert(skel.take(k as int) =~= skel);
    if param_keys.len() == 0 {
        return None;
    }
    let saving = match func_saving_checked(param_keys.len(), defaults.len(), records.len()) {
        Some(s) => s,
        None => {
            return None;
        },
    };
    if saving < opts.threshold as isize {
        return None;
    }
    let mut instances: Vec<Node> = Vec::new();
    let mut t: usize = 0;
    while t < items.len()
        invariant
            t <= items.len(),
            instances@.map_values(|n: Node| node_view(n)) == items@.map_values(
                |n: Node| node_view(n),
            ).take(t as int),
        decreases items.len() - t,
    {
        let ghost prev = instances@.map_values(|n: Node| node_view(n));
        let v = items[t].clone();
        instances.push(v);
        assert(instances@.map_values(|n: Node| node_view(n)) =~= prev.push(node_view(items@[t as int])));
        assert(items@.map_values(|n: Node| node_view(n)).take(t + 1) =~= items@.map_values(
            |n: Node| node_view(n),
        ).take(t as int).push(node_view(items@[t as int])));
        t = t + 1;
    }
    assert(items@.map_values(|n: Node| node_view(n)).take(t as int) =~= xs);
    let c = FuncCandidate {
        name: string_from_chars(source_key.as_slice()),
        param_keys,
        defaults,
        instances,
        saving,
    };
    Some(c)
}

/// Every key of a record's skeleton names one of its fields.
proof fn lemma_skeleton_keys(fs: Seq<(Seq<char>, NodeV)>, skel: Seq<Seq<char>>, k: int)
    requires
        skel == skeleton_of(fs),
        0 <= k < skel.len(),
    ensures
        key_index(fs, skel[k]) >= 0,
{
    broadcast use vstd::seq_lib::group_to_multiset_ensures;

    crate::ingestion::ir::lemma_skeleton_perm(fs);
    lemma_key_index(fs, skel[k]);
    assert(skel.contains(skel[k]));
    assert(skel.to_multiset().count(skel[k]) > 0);
    assert(crate::ingestion::ir::keys_of(fs).to_multiset().count(skel[k]) > 0);
    assert(crate::ingestion::ir::keys_of(fs).contains(skel[k]));
    let j = choose|j: int| 0 <= j < fs.len() && crate::ingestion::ir::keys_of(fs)[j] == skel[k];
    assert(fs[j].0 == skel[k]);
}

/// Inserts `c` after every candidate whose saving is not below its own.
fn insert_by_saving(out: &mut Vec<FuncCandidate>, c: FuncCandidate)
    ensures
        funcs_view(final(out)@) == ({
            let p = funcs_view(old(out)@);
            let k = stable_pos(p, c@, |e: FuncV| e.saving);
            p.take(k) + seq![c@] + p.skip(k)
        }),
{
    let ghost p = funcs_view(out@);
    let ghost f = |e: FuncV| e.saving;
    let mut k: usize = 0;
    assert(p.skip(0) =~= p);
    while k < out.len() && out[k].saving >= c.saving
        invariant
            k <= out.len(),
            p == funcs_view(out@),
            f == (|e: FuncV| e.saving),
            stable_pos(p, c@, f) == k + stable_pos(p.skip(k as int), c@, f),
        decreases out.len() - k,
    {
        assert(p.skip(k as int)[0] == p[k as int]);
        assert(p.skip(k as int).drop_first() =~= p.skip(k + 1));
        k = k + 1;
    }
    proof {
        if k < out.len() {
            assert(p.skip(k as int)[0] == p[k as int]);
        }
    }
    let ghost cv = c@;
    out.insert(k, c);
    assert(funcs_view(out@) =~= p.take(k as int) + seq![cv] + p.skip(k as int));
}

/// Appends the candidates found in `node` (reached under `array_key`).
fn find_homogeneous_arrays(
    node: &Node,
    array_key: &Vec<char>,
    out: &mut Vec<FuncCandidate>,
    opts: &ConvertOptions,
)
    ensures
        funcs_view(final(out)@) == funcs_view(old(out)@) + func_candidates(
            node@,
            array_key@,
            *opts,
        ),
    decreases node,
{
    match node {
        Node::Array(items) => {
            proof {
                lemma_array_view(*items);
            }
            let ghost xs = items@.map_values(|n: Node| node_view(n));
            if items.len() >= opts.min_occurrences {
                let ghost start = funcs_view(out@);
                match try_extract_func(array_key, items, opts) {
                    Some(c) => {
                        let ghost cv = c@;
                        out.push(c);
                        assert(funcs_view(out@) =~= start + seq![cv]);
                    },
                    None => {
                        assert(funcs_view(out@) =~= start + seq![]);
                    },
                }
                let ghost base = funcs_view(out@);
                let empty: Vec<char> = Vec::new();
                let mut i: usize = 0;
                while i < items.len()
                    invariant
                        i <= items.len(),
                        *node == Node::Array(*items),
                        xs == items@.map_values(|n: Node| node_view(n)),
                        empty@ == Seq::<char>::empty(),
                        funcs_view(out@) == base + item_func_candidates(xs, i as int, *opts),
                    decreases items.len() - i,
                {
                    proof {
                        assert(decreases_to!(*node => node->Array_0));
                        broadcast use vstd::std_specs::vec::axiom_vec_index_decreases;

                        assert(decreases_to!(*items => items[i as int]));
                    }
                    find_homogeneous_arrays(&items[i], &empty, out, opts);
                    assert(funcs_view(out@) =~= base + item_func_candidates(xs, i + 1, *opts));
                    i = i + 1;
                }
                assert(funcs_view(out@) =~= funcs_view(old(out)@) + func_candidates(
                    node@,
                    array_key@,
                    *opts,
                ));
            } else {
                assert(funcs_view(out@) =~= funcs_view(old(out)@) + func_candidates(
                    node@,
                    array_key@,
                    *opts,
                ));
            }
        },
        Node::Record(r) => {
            proof {
                lemma_record_view(*r);
            }
            let mut i: usize = 0;
            while i < r.fields.len()
                invariant
                    i <= r.fields.len(),
                    *node == Node::Record(*r),
                    node@ == NodeV::Record(r@),
                    r@ == fields_view(r.fields@),
                    funcs_view(out@) == funcs_view(old(out)@) + field_func_candidates(
                        r@,
                        i as int,
                        *opts,
                    ),
                decreases r.fields.len() - i,
            {
                assert(r@[i as int] == (r.fields@[i as int].0@, node_view(r.fields@[i as int].1)));
                let key = crate::text::chars_of(r.fields[i].0.as_str());
                proof {
                    assert(decreases_to!(*node => node->Record_0));
                    broadcast use vstd::std_specs::vec::axiom_vec_index_decreases;

                    assert(decreases_to!(r.fields => r.fields[i as int]));
                }
                find_homogeneous_arrays(&r.fields[i].1, &key, out, opts);
                assert(funcs_view(out@) =~= funcs_view(old(out)@) + field_func_candidates(
                    r@,
                    i + 1,
                    *opts,
                ));
                i = i + 1;
            }
        },
        _ => {
            assert(funcs_view(out@) =~= funcs_view(old(out)@) + func_candidates(
                node@,
                array_key@,
                *opts,
            ));
        },
    }
}

/// Detects QuickFunc candidates, most impactful first.
pub fn detect(root: &Node, opts: &ConvertOptions) -> (r: Vec<FuncCandidate>)
    ensures
        funcs_view(r@) == spec_detect_funcs(root@, *opts),
{
    let mut found: Vec<FuncCandidate> = Vec::new();
    let empty: Vec<char> = Vec::new();
    find_homogeneous_arrays(root, &empty, &mut found, opts);
    assert(empty@ =~= Seq::<char>::empty());
    let ghost all = funcs_view(found@);
    assert(all =~= func_candidates(root@, seq![], *opts));
    let ghost f = |c: FuncV| c.saving;
    let mut out: Vec<FuncCandidate> = Vec::new();
    let ghost mut taken: int = 0;
    assert(all.take(0) =~= Seq::<FuncV>::empty());
    assert(all.skip(0) =~= all);
    while found.len() > 0
        invariant
            0 <= taken <= all.len(),
            funcs_view(found@) == all.skip(taken),
            f == (|c: FuncV| c.saving),
            funcs_view(out@) == sort_desc(all.take(taken), f),
        decreases found.len(),
    {
        let ghost before = funcs_view(found@);
        let c = found.remove(0);
        proof {
            assert(before[0] == c@);
            assert(funcs_view(found@) =~= before.drop_first());
            assert(all.skip(taken).drop_first() =~= all.skip(taken + 1));
            assert(all.take(taken + 1).drop_last() =~= all.take(taken));
            assert(all.take(taken + 1).last() == c@);
        }
        insert_by_saving(&mut out, c);
        proof {
            taken = taken + 1;
        }
    }
    assert(all.take(taken) =~= all);
    out
}

} // verus!
