//! Intermediate representation: a format-agnostic value tree.
//!
//! Every supported format is first parsed into this tree; the induction and
//! emission stages work on it alone.
use vstd::prelude::*;
use crate::text::{
    chars_eq, chars_of, find_insert_pos, insert_sorted, is_sorted, lemma_insert_pos,
    lemma_sort_seqs, sort_seqs,
};

verus! {

/// A value in the tree.
#[derive(Debug)]
pub enum Node {
    Record(Record),
    Array(Vec<Node>),
    Primitive(Primitive),
    Null,
}

/// An ordered map of string keys to child nodes. The order is that in which the
/// keys were first inserted (for a parsed document, the source order), which
/// keeps the output deterministic.
#[derive(Debug)]
pub struct Record {
    pub fields: Vec<(String, Node)>,
}

/// A floating-point number, held as its IEEE-754 bit pattern and the text that
/// Rust's `Display` gives for it.
#[derive(Debug, Clone)]
pub struct FloatValue {
    pub bits: u64,
    pub text: String,
}

/// Scalar values.
#[derive(Debug, Clone, PartialEq)]
pub enum Primitive {
    Str(String),
    Int(i64),
    Float(FloatValue),
    Bool(bool),
}

// ── Mathematical model ───────────────────────────────────────────────────────

/// The value of a `Node`, with strings as character sequences.
pub enum NodeV {
    Record(Seq<(Seq<char>, NodeV)>),
    Array(Seq<NodeV>),
    Str(Seq<char>),
    Int(i64),
    Float(u64, Seq<char>),
    Bool(bool),
    Null,
}

pub open spec fn prim_view(p: Primitive) -> NodeV {
    match p {
        Primitive::Str(s) => NodeV::Str(s@),
        Primitive::Int(i) => NodeV::Int(i),
        Primitive::Float(f) => NodeV::Float(f.bits, f.text@),
        Primitive::Bool(b) => NodeV::Bool(b),
    }
}

pub open spec fn node_view(n: Node) -> NodeV
    decreases n,
{
    match n {
        Node::Record(r) => NodeV::Record(
            Seq::new(
                r.fields@.len(),
                |i: int|
                    if 0 <= i < r.fields@.len() {
                        (r.fields@[i].0@, node_view(r.fields@[i].1))
                    } else {
                        (Seq::empty(), NodeV::Null)
                    },
            ),
        ),
        Node::Array(items) => NodeV::Array(
            Seq::new(
                items@.len(),
                |i: int|
                    if 0 <= i < items@.len() {
                        node_view(items@[i])
                    } else {
                        NodeV::Null
                    },
            ),
        ),
        Node::Primitive(p) => prim_view(p),
        Node::Null => NodeV::Null,
    }
}

impl View for Node {
    type V = NodeV;

    open spec fn view(&self) -> NodeV {
        node_view(*self)
    }
}

/// The fields of a record, as (key, value) pairs of the model.
pub open spec fn fields_view(fields: Seq<(String, Node)>) -> Seq<(Seq<char>, NodeV)> {
    Seq::new(fields.len(), |i: int| (fields[i].0@, node_view(fields[i].1)))
}

impl View for Record {
    type V = Seq<(Seq<char>, NodeV)>;

    open spec fn view(&self) -> Seq<(Seq<char>, NodeV)> {
        fields_view(self.fields@)
    }
}

pub proof fn lemma_record_view(r: Record)
    ensures
        node_view(Node::Record(r)) == NodeV::Record(r@),
{
    assert(NodeV::Record(r@) == node_view(Node::Record(r))) by {
        if let NodeV::Record(s) = node_view(Node::Record(r)) {
            assert(s =~= r@);
        }
    }
}

pub proof fn lemma_array_view(items: Vec<Node>)
    ensures
        node_view(Node::Array(items)) == NodeV::Array(items@.map_values(|n: Node| node_view(n))),
{
    if let NodeV::Array(s) = node_view(Node::Array(items)) {
        assert(s =~= items@.map_values(|n: Node| node_view(n)));
    }
}

// ── Distinct keys ───────────────────────────────────────────────────────────

/// No two fields have the same key.
pub open spec fn keys_distinct(fs: Seq<(Seq<char>, NodeV)>) -> bool {
    forall|i: int, j: int| 0 <= i < j < fs.len() ==> #[trigger] fs[i].0 != #[trigger] fs[j].0
}

/// Every record in the tree has distinct keys.
pub open spec fn unique_keys(n: NodeV) -> bool
    decreases n, 1nat,
{
    match n {
        NodeV::Record(fs) => keys_distinct(fs) && fields_unique(fs),
        NodeV::Array(xs) => items_unique(xs),
        _ => true,
    }
}

/// Every value among the fields has `unique_keys`.
pub open spec fn fields_unique(fs: Seq<(Seq<char>, NodeV)>) -> bool
    decreases fs, 0nat,
{
    if fs.len() == 0 {
        true
    } else {
        fields_unique(fs.drop_last()) && unique_keys(fs.last().1)
    }
}

/// Every item has `unique_keys`.
pub open spec fn items_unique(xs: Seq<NodeV>) -> bool
    decreases xs, 0nat,
{
    if xs.len() == 0 {
        true
    } else {
        items_unique(xs.drop_last()) && unique_keys(xs.last())
    }
}

// ── Equality (structural, with floats compared as `f64`) ────────────────────

/// `f64 == f64` on bit patterns: NaN equals nothing, the two zeros are equal.
pub open spec fn float_bits_eq(a: u64, b: u64) -> bool {
    let a_nan = (a & 0x7ff0_0000_0000_0000u64) == 0x7ff0_0000_0000_0000u64 && (a
        & 0x000f_ffff_ffff_ffffu64) != 0;
    let b_nan = (b & 0x7ff0_0000_0000_0000u64) == 0x7ff0_0000_0000_0000u64 && (b
        & 0x000f_ffff_ffff_ffffu64) != 0;
    let a_zero = (a & 0x7fff_ffff_ffff_ffffu64) == 0;
    let b_zero = (b & 0x7fff_ffff_ffff_ffffu64) == 0;
    !a_nan && !b_nan && (a == b || (a_zero && b_zero))
}

/// Two floats compare as `f64` values do.
impl PartialEq for FloatValue {
    fn eq(&self, other: &Self) -> (r: bool) {
        float_bits_equal(self.bits, other.bits)
    }
}

impl vstd::std_specs::cmp::PartialEqSpecImpl for FloatValue {
    open spec fn obeys_eq_spec() -> bool {
        true
    }

    open spec fn eq_spec(&self, other: &Self) -> bool {
        float_bits_eq(self.bits, other.bits)
    }
}

pub fn float_bits_equal(a: u64, b: u64) -> (r: bool)
    ensures
        r == float_bits_eq(a, b),
{
    let a_nan = (a & 0x7ff0_0000_0000_0000u64) == 0x7ff0_0000_0000_0000u64 && (a
        & 0x000f_ffff_ffff_ffffu64) != 0;
    let b_nan = (b & 0x7ff0_0000_0000_0000u64) == 0x7ff0_0000_0000_0000u64 && (b
        & 0x000f_ffff_ffff_ffffu64) != 0;
    let a_zero = (a & 0x7fff_ffff_ffff_ffffu64) == 0;
    let b_zero = (b & 0x7fff_ffff_ffff_ffffu64) == 0;
    !a_nan && !b_nan && (a == b || (a_zero && b_zero))
}

/// Structural equality of two values; floats compare as `f64` does.
pub open spec fn node_eq(a: NodeV, b: NodeV) -> bool
    decreases a,
{
    match a {
        NodeV::Record(fa) => match b {
            NodeV::Record(fb) => fa.len() == fb.len() && fields_eq(fa, fb, fa.len() as int),
            _ => false,
        },
        NodeV::Array(xa) => match b {
            NodeV::Array(xb) => xa.len() == xb.len() && items_eq(xa, xb, xa.len() as int),
            _ => false,
        },
        NodeV::Str(s) => b == NodeV::Str(s),
        NodeV::Int(i) => b == NodeV::Int(i),
        NodeV::Bool(v) => b == NodeV::Bool(v),
        NodeV::Float(x, _) => match b {
            NodeV::Float(y, _) => float_bits_eq(x, y),
            _ => false,
        },
        NodeV::Null => b == NodeV::Null,
    }
}

/// The first `k` fields of `fa` and `fb` have equal keys and equal values.
pub open spec fn fields_eq(fa: Seq<(Seq<char>, NodeV)>, fb: Seq<(Seq<char>, NodeV)>, k: int) -> bool
    decreases fa, k,
{
    if k <= 0 {
        true
    } else if k > fa.len() || k > fb.len() {
        false
    } else {
        fields_eq(fa, fb, k - 1) && fa[k - 1].0 == fb[k - 1].0 && node_eq(fa[k - 1].1, fb[k - 1].1)
    }
}

/// The first `k` items of `xa` and `xb` are equal.
pub open spec fn items_eq(xa: Seq<NodeV>, xb: Seq<NodeV>, k: int) -> bool
    decreases xa, k,
{
    if k <= 0 {
        true
    } else if k > xa.len() || k > xb.len() {
        false
    } else {
        items_eq(xa, xb, k - 1) && node_eq(xa[k - 1], xb[k - 1])
    }
}

pub proof fn lemma_fields_eq_prefix(fa: Seq<(Seq<char>, NodeV)>, fb: Seq<(Seq<char>, NodeV)>, n: int, k: int)
    requires
        0 <= k <= n,
        fields_eq(fa, fb, n),
    ensures
        fields_eq(fa, fb, k),
    decreases n - k,
{
    if k < n {
        lemma_fields_eq_prefix(fa, fb, n - 1, k);
    }
}

pub proof fn lemma_items_eq_prefix(xa: Seq<NodeV>, xb: Seq<NodeV>, n: int, k: int)
    requires
        0 <= k <= n,
        items_eq(xa, xb, n),
    ensures
        items_eq(xa, xb, k),
    decreases n - k,
{
    if k < n {
        lemma_items_eq_prefix(xa, xb, n - 1, k);
    }
}

// ── Accessors ───────────────────────────────────────────────────────────────

impl Node {
    pub fn is_record(&self) -> (r: bool)
        ensures
            r == (*self is Record),
    {
        match self {
            Node::Record(_) => true,
            _ => false,
        }
    }

    pub fn is_array(&self) -> (r: bool)
        ensures
            r == (*self is Array),
    {
        match self {
            Node::Array(_) => true,
            _ => false,
        }
    }

    pub fn is_null(&self) -> (r: bool)
        ensures
            r == (*self is Null),
    {
        match self {
            Node::Null => true,
            _ => false,
        }
    }

    pub fn as_record(&self) -> (r: Option<&Record>)
        ensures
            match *self {
                Node::Record(rec) => r == Some(&rec),
                _ => r is None,
            },
    {
        match self {
            Node::Record(rec) => Some(rec),
            _ => None,
        }
    }

    pub fn as_array(&self) -> (r: Option<&[Node]>)
        ensures
            match *self {
                Node::Array(items) => r is Some && r->0@ == items@,
                _ => r is None,
            },
    {
        match self {
            Node::Array(items) => Some(items.as_slice()),
            _ => None,
        }
    }
}

impl Primitive {
    pub fn as_str(&self) -> (r: Option<&str>)
        ensures
            match *self {
                Primitive::Str(s) => r is Some && r->0@ == s@,
                _ => r is None,
            },
    {
        match self {
            Primitive::Str(s) => Some(s.as_str()),
            _ => None,
        }
    }

    pub fn as_int(&self) -> (r: Option<i64>)
        ensures
            match *self {
                Primitive::Int(i) => r == Some(i),
                _ => r is None,
            },
    {
        match self {
            Primitive::Int(i) => Some(*i),
            _ => None,
        }
    }

    pub fn as_bool(&self) -> (r: Option<bool>)
        ensures
            match *self {
                Primitive::Bool(b) => r == Some(b),
                _ => r is None,
            },
    {
        match self {
            Primitive::Bool(b) => Some(*b),
            _ => None,
        }
    }
}

/// Index of the first field whose key is `key`; -1 when there is none.
pub open spec fn key_index(fields: Seq<(Seq<char>, NodeV)>, key: Seq<char>) -> int
    decreases fields.len(),
{
    if fields.len() == 0 {
        -1
    } else if fields[0].0 == key {
        0
    } else {
        let r = key_index(fields.drop_first(), key);
        if r < 0 {
            -1
        } else {
            r + 1
        }
    }
}

pub proof fn lemma_key_index(fields: Seq<(Seq<char>, NodeV)>, key: Seq<char>)
    ensures
        -1 <= key_index(fields, key) < fields.len(),
        key_index(fields, key) >= 0 ==> fields[key_index(fields, key)].0 == key,
        forall|j: int|
            0 <= j < fields.len() && (key_index(fields, key) < 0 || j < key_index(fields, key))
                ==> #[trigger] fields[j].0 != key,
    decreases fields.len(),
{
    if fields.len() > 0 && fields[0].0 != key {
        lemma_key_index(fields.drop_first(), key);
        assert forall|j: int|
            0 <= j < fields.len() && (key_index(fields, key) < 0 || j < key_index(fields, key))
                implies #[trigger] fields[j].0 != key by {
            if j > 0 {
                assert(fields[j] == fields.drop_first()[j - 1]);
            }
        }
    }
}

/// The keys of a record, in order.
pub open spec fn keys_of(fields: Seq<(Seq<char>, NodeV)>) -> Seq<Seq<char>> {
    fields.map_values(|f: (Seq<char>, NodeV)| f.0)
}

/// The keys of `fields`, each once, in order of first occurrence.
pub open spec fn distinct_keys_of(fields: Seq<(Seq<char>, NodeV)>) -> Seq<Seq<char>>
    decreases fields.len(),
{
    if fields.len() == 0 {
        seq![]
    } else {
        let p = distinct_keys_of(fields.drop_last());
        if p.contains(fields.last().0) {
            p
        } else {
            p.push(fields.last().0)
        }
    }
}

/// The first-occurrence keys hold every key of the record once; with distinct
/// keys they are the keys of the fields.
pub proof fn lemma_distinct_keys_of(fields: Seq<(Seq<char>, NodeV)>)
    ensures
        forall|k: Seq<char>| #[trigger] distinct_keys_of(fields).contains(k) <==> keys_of(fields).contains(k),
        forall|i: int, j: int|
            0 <= i < j < distinct_keys_of(fields).len() ==> #[trigger] distinct_keys_of(fields)[i]
                != #[trigger] distinct_keys_of(fields)[j],
        keys_distinct(fields) ==> distinct_keys_of(fields) == keys_of(fields),
    decreases fields.len(),
{
    if fields.len() > 0 {
        let q = fields.drop_last();
        lemma_distinct_keys_of(q);
        let p = distinct_keys_of(q);
        let x = fields.last().0;
        assert(keys_of(fields) =~= keys_of(q).push(x));
        assert forall|k: Seq<char>| #[trigger] distinct_keys_of(fields).contains(k) <==> keys_of(fields).contains(k) by {
            lemma_push_contains(keys_of(q), x, k);
            lemma_push_contains(p, x, k);
        }
        if keys_distinct(fields) {
            assert(keys_distinct(q)) by {
                assert forall|i: int, j: int| 0 <= i < j < q.len() implies #[trigger] q[i].0 != #[trigger] q[j].0 by {
                    assert(q[i] == fields[i] && q[j] == fields[j]);
                }
            }
            assert(!keys_of(q).contains(x)) by {
                if keys_of(q).contains(x) {
                    let t = choose|t: int| 0 <= t < keys_of(q).len() && keys_of(q)[t] == x;
                    assert(fields[t].0 == x);
                    assert(fields[fields.len() - 1].0 == x);
                }
            }
        }
    }
}

/// The strings of `v`, as character sequences.
pub open spec fn str_seq_view(v: Seq<&str>) -> Seq<Seq<char>> {
    v.map_values(|s: &str| s@)
}

proof fn lemma_push_contains(s: Seq<Seq<char>>, x: Seq<char>, k: Seq<char>)
    ensures
        s.push(x).contains(k) <==> (s.contains(k) || k == x),
{
    if s.push(x).contains(k) && !s.contains(k) {
        let t = choose|t: int| 0 <= t < s.push(x).len() && s.push(x)[t] == k;
        if t < s.len() {
            assert(s[t] == k);
        }
    }
    if s.contains(k) {
        let t = choose|t: int| 0 <= t < s.len() && s[t] == k;
        assert(s.push(x)[t] == k);
    }
    if k == x {
        assert(s.push(x)[s.len() as int] == x);
    }
}

/// Whether `s` is among `v`.
fn contains_str(v: &Vec<&str>, s: &str) -> (b: bool)
    ensures
        b == v@.map_values(|x: &str| x@).contains(s@),
{
    let t = chars_of(s);
    let mut i: usize = 0;
    while i < v.len()
        invariant
            i <= v.len(),
            t@ == s@,
            forall|j: int| 0 <= j < i ==> (#[trigger] v@[j])@ != s@,
        decreases v.len() - i,
    {
        let c = chars_of(v[i]);
        if chars_eq(&c, &t) {
            assert(v@.map_values(|x: &str| x@)[i as int] == s@);
            return true;
        }
        i = i + 1;
    }
    proof {
        let m = v@.map_values(|x: &str| x@);
        if m.contains(s@) {
            let j = choose|j: int| 0 <= j < m.len() && m[j] == s@;
            assert(v@[j]@ == s@);
        }
    }
    false
}

/// `key_index` is `i` when the field at `i` has the key and no field before it does.
proof fn lemma_key_index_is(fields: Seq<(Seq<char>, NodeV)>, key: Seq<char>, i: int)
    requires
        0 <= i < fields.len(),
        fields[i].0 == key,
        forall|j: int| 0 <= j < i ==> #[trigger] fields[j].0 != key,
    ensures
        key_index(fields, key) == i,
    decreases i,
{
    if i > 0 {
        assert forall|j: int| 0 <= j < i - 1 implies #[trigger] fields.drop_first()[j].0 != key by {
            assert(fields.drop_first()[j] == fields[j + 1]);
        }
        assert(fields[0].0 != key);
        lemma_key_index_is(fields.drop_first(), key, i - 1);
    }
}

/// The structural skeleton of a record: its keys in ascending order.
pub open spec fn skeleton_of(fields: Seq<(Seq<char>, NodeV)>) -> Seq<Seq<char>> {
    sort_seqs(keys_of(fields))
}

/// The skeleton holds exactly the keys of the record, in ascending order.
pub proof fn lemma_skeleton_perm(fields: Seq<(Seq<char>, NodeV)>)
    ensures
        skeleton_of(fields).len() == fields.len(),
        skeleton_of(fields).to_multiset() == keys_of(fields).to_multiset(),
        is_sorted(skeleton_of(fields)),
{
    lemma_sort_seqs(keys_of(fields));
}

impl Record {
    pub fn new() -> (r: Record)
        ensures
            r.fields@.len() == 0,
    {
        Record { fields: Vec::new() }
    }

    /// Where the first field named `key` stands.
    fn key_position(&self, key: &str) -> (r: Option<usize>)
        ensures
            match r {
                Some(i) => i as int == key_index(self@, key@) && i < self.fields@.len(),
                None => key_index(self@, key@) < 0,
            },
    {
        let k = chars_of(key);
        let mut i: usize = 0;
        while i < self.fields.len()
            invariant
                i <= self.fields.len(),
                k@ == key@,
                key_index(self@, key@) == -1 || key_index(self@, key@) >= i,
                forall|j: int| 0 <= j < i ==> #[trigger] self@[j].0 != key@,
            decreases self.fields.len() - i,
        {
            let fk = chars_of(self.fields[i].0.as_str());
            proof {
                lemma_key_index(self@, key@);
            }
            if chars_eq(&fk, &k) {
                assert(self@[i as int].0 == key@);
                return Some(i);
            }
            assert(self@[i as int].0 != key@);
            i = i + 1;
        }
        proof {
            lemma_key_index(self@, key@);
        }
        None
    }

    /// Sets `key` to `value`: the value of a key already present is replaced in
    /// place, a new key is appended. Afterwards `get(key)` gives `value`, and a
    /// record with distinct keys keeps them distinct.
    pub fn insert(&mut self, key: String, value: Node)
        ensures
            key_index(old(self)@, key@) >= 0 ==> final(self).fields@ == old(self).fields@.update(
                key_index(old(self)@, key@),
                (key, value),
            ),
            key_index(old(self)@, key@) < 0 ==> final(self).fields@ == old(self).fields@.push(
                (key, value),
            ),
            key_index(final(self)@, key@) >= 0,
            final(self).fields@[key_index(final(self)@, key@)].1 == value,
            keys_distinct(old(self)@) ==> keys_distinct(final(self)@),
    {
        let ghost old_view = self@;
        let ghost k = key@;
        let ghost nv = (key@, node_view(value));
        proof {
            lemma_key_index(old_view, k);
        }
        match self.key_position(key.as_str()) {
            Some(i) => {
                self.fields.set(i, (key, value));
                proof {
                    assert(self@ =~= old_view.update(i as int, nv));
                    lemma_key_index_is(self@, k, i as int);
                }
            },
            None => {
                self.fields.push((key, value));
                proof {
                    assert(self@ =~= old_view.push(nv));
                    lemma_key_index_is(self@, k, old_view.len() as int);
                }
            },
        }
    }

    /// The value of the first field named `key`.
    pub fn get(&self, key: &str) -> (r: Option<&Node>)
        ensures
            match r {
                Some(n) => 0 <= key_index(self@, key@) && *n == self.fields@[key_index(
                    self@,
                    key@,
                )].1,
                None => key_index(self@, key@) < 0,
            },
    {
        match self.key_position(key) {
            Some(i) => Some(&self.fields[i].1),
            None => None,
        }
    }

    /// All unique keys, in order of first occurrence: each key of the record
    /// once (for a record with distinct keys, the keys of its fields in order).
    pub fn keys(&self) -> (r: Vec<&str>)
        ensures
            r@.map_values(|k: &str| k@) == distinct_keys_of(self@),
            forall|i: int, j: int| 0 <= i < j < r@.len() ==> (#[trigger] r@[i])@ != (#[trigger] r@[j])@,
            forall|k: Seq<char>| #[trigger] str_seq_view(r@).contains(k) <==> key_index(self@, k) >= 0,
            keys_distinct(self@) ==> r@.map_values(|k: &str| k@) == keys_of(self@),
    {
        let ghost fs = self@;
        let mut r: Vec<&str> = Vec::new();
        let mut i: usize = 0;
        while i < self.fields.len()
            invariant
                i <= self.fields.len(),
                fs == self@,
                r@.map_values(|k: &str| k@) == distinct_keys_of(fs.take(i as int)),
            decreases self.fields.len() - i,
        {
            let key = self.fields[i].0.as_str();
            let ghost prev = r@.map_values(|k: &str| k@);
            proof {
                lemma_distinct_keys_of(fs.take(i as int));
                assert(fs.take(i + 1).drop_last() =~= fs.take(i as int));
                assert(fs.take(i + 1).last() == fs[i as int]);
                assert(fs[i as int].0 == key@);
            }
            if !contains_str(&r, key) {
                r.push(key);
                assert(r@.map_values(|k: &str| k@) =~= prev.push(key@));
            }
            i = i + 1;
        }
        proof {
            assert(fs.take(i as int) =~= fs);
            lemma_distinct_keys_of(fs);
            lemma_key_index(fs, fs[0].0);
            let v = r@.map_values(|k: &str| k@);
            assert forall|a: int, b: int| 0 <= a < b < r@.len() implies (#[trigger] r@[a])@ != (
            #[trigger] r@[b])@ by {
                assert(v[a] == r@[a]@ && v[b] == r@[b]@);
            }
            assert forall|k: Seq<char>| #[trigger] v.contains(k) <==> key_index(fs, k) >= 0 by {
                lemma_key_index(fs, k);
                if keys_of(fs).contains(k) {
                    let j = choose|j: int| 0 <= j < fs.len() && keys_of(fs)[j] == k;
                    assert(fs[j].0 == k);
                }
                if key_index(fs, k) >= 0 {
                    assert(keys_of(fs)[key_index(fs, k)] == k);
                }
            }
        }
        r
    }

    /// The keys in ascending order, as string slices and as characters.
    fn sorted_keys(&self) -> (r: (Vec<&str>, Vec<Vec<char>>))
        ensures
            r.0@.len() == r.1@.len(),
            forall|i: int| 0 <= i < r.0@.len() ==> #[trigger] r.0@[i]@ == r.1@[i]@,
            r.1@.map_values(|k: Vec<char>| k@) == skeleton_of(self@),
    {
        let ghost ks = keys_of(self@);
        let mut strs: Vec<&str> = Vec::new();
        let mut cs: Vec<Vec<char>> = Vec::new();
        let mut i: usize = 0;
        while i < self.fields.len()
            invariant
                i <= self.fields.len(),
                ks == keys_of(self@),
                strs@.len() == cs@.len(),
                forall|j: int| 0 <= j < strs@.len() ==> #[trigger] strs@[j]@ == cs@[j]@,
                cs@.map_values(|k: Vec<char>| k@) == sort_seqs(ks.take(i as int)),
            decreases self.fields.len() - i,
        {
            let key = self.fields[i].0.as_str();
            let x = chars_of(key);
            let ghost prev = cs@.map_values(|k: Vec<char>| k@);
            let p = find_insert_pos(&cs, &x);
            proof {
                lemma_insert_pos(prev, x@);
                assert(ks.take(i + 1).drop_last() =~= ks.take(i as int));
                assert(ks.take(i + 1).last() == x@);
            }
            let ghost old_strs = strs@;
            let ghost old_cs = cs@;
            strs.insert(p, key);
            cs.insert(p, x);
            proof {
                assert(cs@.map_values(|k: Vec<char>| k@) =~= insert_sorted(prev, x@));
                assert forall|j: int| 0 <= j < strs@.len() implies #[trigger] strs@[j]@
                    == cs@[j]@ by {
                    if j < p {
                        assert(strs@[j] == old_strs[j] && cs@[j] == old_cs[j]);
                    } else if j > p {
                        assert(strs@[j] == old_strs[j - 1] && cs@[j] == old_cs[j - 1]);
                    }
                }
            }
            i = i + 1;
        }
        assert(ks.take(i as int) =~= ks);
        (strs, cs)
    }

    /// Structural skeleton: the key names in ascending order, ignoring values.
    /// Two records with the same skeleton are candidates for a QuickFunc.
    pub fn skeleton(&self) -> (r: Vec<&str>)
        ensures
            r@.map_values(|k: &str| k@) == skeleton_of(self@),
    {
        let (strs, cs) = self.sorted_keys();
        assert(strs@.map_values(|k: &str| k@) =~= cs@.map_values(|k: Vec<char>| k@));
        strs
    }

    /// The skeleton as characters.
    pub fn skeleton_chars(&self) -> (r: Vec<Vec<char>>)
        ensures
            r@.map_values(|k: Vec<char>| k@) == skeleton_of(self@),
    {
        let (_strs, cs) = self.sorted_keys();
        cs
    }
}

// ── Copying and comparing ───────────────────────────────────────────────────

fn copy_string(s: &String) -> (r: String)
    ensures
        r@ == s@,
{
    s.clone()
}

/// A deep copy of a record.
pub fn copy_record(rec: &Record) -> (r: Record)
    ensures
        r@ == rec@,
    decreases rec,
{
    let mut fields: Vec<(String, Node)> = Vec::new();
    let mut i: usize = 0;
    while i < rec.fields.len()
        invariant
            i <= rec.fields.len(),
            fields@.len() == i,
            forall|j: int|
                0 <= j < i ==> (#[trigger] fields@[j]).0@ == rec.fields@[j].0@
                    && node_view(fields@[j].1) == node_view(rec.fields@[j].1),
        decreases rec.fields.len() - i,
    {
        let k = copy_string(&rec.fields[i].0);
        proof {
            broadcast use vstd::std_specs::vec::axiom_vec_index_decreases;

            assert(decreases_to!(rec.fields => rec.fields[i as int]));
        }
        let v = copy_node(&rec.fields[i].1);
        fields.push((k, v));
        i = i + 1;
    }
    let r = Record { fields };
    proof {
        lemma_record_view(r);
        lemma_record_view(*rec);
        assert(fields_view(r.fields@) =~= fields_view(rec.fields@));
    }
    r
}

/// A deep copy.
pub fn copy_node(n: &Node) -> (r: Node)
    ensures
        r@ == n@,
    decreases n,
{
    match n {
        Node::Record(rec) => {
            proof {
                assert(decreases_to!(*n => *rec));
                lemma_record_view(*rec);
            }
            let c = copy_record(rec);
            proof {
                lemma_record_view(c);
            }
            Node::Record(c)
        },
        Node::Array(items) => {
            let mut out: Vec<Node> = Vec::new();
            let mut i: usize = 0;
            while i < items.len()
                invariant
                    i <= items.len(),
                    *n == Node::Array(*items),
                    out@.len() == i,
                    forall|j: int| 0 <= j < i ==> node_view(#[trigger] out@[j]) == node_view(items@[j]),
                decreases items.len() - i,
            {
                proof {
                    broadcast use vstd::std_specs::vec::axiom_vec_index_decreases;

                    assert(decreases_to!(*n => n->Array_0));
                    assert(decreases_to!(*items => items[i as int]));
                }
                let v = copy_node(&items[i]);
                out.push(v);
                i = i + 1;
            }
            proof {
                lemma_array_view(out);
                lemma_array_view(*items);
                assert(out@.map_values(|n: Node| node_view(n)) =~= items@.map_values(
                    |n: Node| node_view(n),
                ));
            }
            Node::Array(out)
        },
        Node::Primitive(p) => Node::Primitive(
            match p {
                Primitive::Str(s) => Primitive::Str(copy_string(s)),
                Primitive::Int(i) => Primitive::Int(*i),
                Primitive::Float(f) => Primitive::Float(
                    FloatValue { bits: f.bits, text: copy_string(&f.text) },
                ),
                Primitive::Bool(b) => Primitive::Bool(*b),
            },
        ),
        Node::Null => Node::Null,
    }
}

fn strings_equal(a: &String, b: &String) -> (r: bool)
    ensures
        r == (a@ == b@),
{
    a.eq(b)
}

/// Whether two values are equal (floats compare as `f64` does).
/// Records are equal when their fields are, in order (see `node_eq`).
pub fn records_equal(ra: &Record, rb: &Record) -> (r: bool)
    ensures
        r == node_eq(NodeV::Record(ra@), NodeV::Record(rb@)),
    decreases ra,
{
    proof {
        lemma_record_view(*ra);
        lemma_record_view(*rb);
    }
    if ra.fields.len() != rb.fields.len() {
        return false;
    }
    let mut i: usize = 0;
    while i < ra.fields.len()
        invariant
            i <= ra.fields.len() == rb.fields.len(),
            ra@ == fields_view(ra.fields@),
            rb@ == fields_view(rb.fields@),
            fields_eq(ra@, rb@, i as int),
        decreases ra.fields.len() - i,
    {
        assert(ra@[i as int] == (ra.fields@[i as int].0@, node_view(ra.fields@[i as int].1)));
        assert(rb@[i as int] == (rb.fields@[i as int].0@, node_view(rb.fields@[i as int].1)));
        if !strings_equal(&ra.fields[i].0, &rb.fields[i].0) {
            proof {
                if fields_eq(ra@, rb@, ra@.len() as int) {
                    lemma_fields_eq_prefix(ra@, rb@, ra@.len() as int, i + 1);
                }
            }
            return false;
        }
        proof {
            broadcast use vstd::std_specs::vec::axiom_vec_index_decreases;

            assert(decreases_to!(ra.fields => ra.fields[i as int]));
        }
        if !nodes_equal(&ra.fields[i].1, &rb.fields[i].1) {
            proof {
                if fields_eq(ra@, rb@, ra@.len() as int) {
                    lemma_fields_eq_prefix(ra@, rb@, ra@.len() as int, i + 1);
                }
            }
            return false;
        }
        i = i + 1;
    }
    true
}

pub fn nodes_equal(a: &Node, b: &Node) -> (r: bool)
    ensures
        r == node_eq(a@, b@),
    decreases a,
{
    match (a, b) {
        (Node::Record(ra), Node::Record(rb)) => {
            proof {
                assert(decreases_to!(*a => *ra));
                lemma_record_view(*ra);
                lemma_record_view(*rb);
            }
            records_equal(ra, rb)
        },
        (Node::Array(xa), Node::Array(xb)) => {
            proof {
                lemma_array_view(*xa);
                lemma_array_view(*xb);
            }
            if xa.len() != xb.len() {
                return false;
            }
            let mut i: usize = 0;
            while i < xa.len()
                invariant
                    i <= xa.len() == xb.len(),
                    *a == Node::Array(*xa),
                    a@ == NodeV::Array(xa@.map_values(|n: Node| node_view(n))),
                    b@ == NodeV::Array(xb@.map_values(|n: Node| node_view(n))),
                    items_eq(xa@.map_values(|n: Node| node_view(n)), xb@.map_values(|n: Node| node_view(n)), i as int),
                decreases xa.len() - i,
            {
                proof {
                    broadcast use vstd::std_specs::vec::axiom_vec_index_decreases;

                    assert(decreases_to!(*xa => xa[i as int]));
                    assert(decreases_to!(*a => xa[i as int]));
                }
                if !nodes_equal(&xa[i], &xb[i]) {
                    proof {
                        let sa = xa@.map_values(|n: Node| node_view(n));
                        let sb = xb@.map_values(|n: Node| node_view(n));
                        if items_eq(sa, sb, sa.len() as int) {
                            lemma_items_eq_prefix(sa, sb, sa.len() as int, i + 1);
                        }
                    }
                    return false;
                }
                i = i + 1;
            }
            true
        },
        (Node::Primitive(pa), Node::Primitive(pb)) => match (pa, pb) {
            (Primitive::Str(x), Primitive::Str(y)) => strings_equal(x, y),
            (Primitive::Int(x), Primitive::Int(y)) => *x == *y,
            (Primitive::Bool(x), Primitive::Bool(y)) => *x == *y,
            (Primitive::Float(x), Primitive::Float(y)) => float_bits_equal(x.bits, y.bits),
            _ => false,
        },
        (Node::Null, Node::Null) => true,
        _ => false,
    }
}

// ── Standard traits ─────────────────────────────────────────────────────────

impl Clone for Node {
    /// A deep copy.
    fn clone(&self) -> (r: Self)
        ensures
            r@ == self@,
    {
        copy_node(self)
    }
}

impl PartialEq for Node {
    /// Structural equality, with floats compared as `f64` values.
    fn eq(&self, other: &Self) -> (r: bool) {
        nodes_equal(self, other)
    }
}

impl vstd::std_specs::cmp::PartialEqSpecImpl for Node {
    open spec fn obeys_eq_spec() -> bool {
        true
    }

    open spec fn eq_spec(&self, other: &Self) -> bool {
        node_eq(self@, other@)
    }
}

impl Clone for Record {
    /// A deep copy.
    fn clone(&self) -> (r: Self)
        ensures
            r@ == self@,
    {
        copy_record(self)
    }
}

impl PartialEq for Record {
    /// Equal keys and equal values, field by field.
    fn eq(&self, other: &Self) -> (r: bool) {
        records_equal(self, other)
    }
}

impl vstd::std_specs::cmp::PartialEqSpecImpl for Record {
    open spec fn obeys_eq_spec() -> bool {
        true
    }

    open spec fn eq_spec(&self, other: &Self) -> bool {
        node_eq(NodeV::Record(self@), NodeV::Record(other@))
    }
}

} // verus!
