//! JSON ingestion: `serde_json` parses the text; the resulting value is mapped
//! onto the tree.
//!
//!   null → Null, bool → Bool, integer → Int, float → Float, string → Str,
//!   array → Array, object → Record (insertion order preserved).
use vstd::prelude::*;
use crate::ingestion::ir::{FloatValue, Node, NodeV, Primitive, Record, lemma_array_view, lemma_record_view, node_view, fields_view, fields_unique, items_unique, unique_keys};
use crate::ingestion::MAX_NESTING;
use crate::text::{append_str, string_from_chars};
use crate::ConvertError;

verus! {

/// `serde_json::Value`, declared so that it can be carried through verified code; its
/// contents are reached only through the functions below.
#[verifier::external_type_specification]
#[verifier::external_body]
pub struct ExJsonValue(serde_json::Value);

/// The variant of a `serde_json::Value`, with its boolean or string payload.
pub enum JsonShape {
    Null,
    Bool(bool),
    Number,
    Str(String),
    Array,
    Object,
}

// ── What serde_json returns ─────────────────────────────────────────────────

/// What `serde_json::from_str::<serde_json::Value>` returns for a text: the
/// value, or the `Display` text of the error.
pub uninterp spec fn json_parse_outcome(text: Seq<char>) -> Result<serde_json::Value, Seq<char>>;

/// The variant of a value (and its boolean or string payload).
pub uninterp spec fn json_shape_of(v: serde_json::Value) -> JsonShape;

/// What `Value::as_i64` returns.
pub uninterp spec fn json_i64_of(v: serde_json::Value) -> Option<i64>;

/// What `Value::as_f64` returns, as the bit pattern and `Display` text of the float.
pub uninterp spec fn json_f64_of(v: serde_json::Value) -> Option<(u64, Seq<char>)>;

/// The `Display` text of the number held by a value.
pub uninterp spec fn json_number_text_of(v: serde_json::Value) -> Seq<char>;

/// The items of an array value, in order.
pub uninterp spec fn json_items_of(v: serde_json::Value) -> Seq<serde_json::Value>;

/// The entries of an object value, in map order.
pub uninterp spec fn json_entries_of(v: serde_json::Value) -> Seq<(Seq<char>, serde_json::Value)>;

/// Calls `serde_json::from_str` for a `serde_json::Value`; the result is what that
/// call returns for `text` (the error taken by its `Display` text).
#[verifier::external_body]
fn json_from_str(text: &str) -> (r: Result<serde_json::Value, String>)
    ensures
        match r {
            Ok(v) => json_parse_outcome(text@) == Ok::<serde_json::Value, Seq<char>>(v),
            Err(e) => json_parse_outcome(text@) == Err::<serde_json::Value, Seq<char>>(e@),
        },
{
    match serde_json::from_str::<serde_json::Value>(text) {
        Ok(v) => Ok(v),
        Err(e) => Err(e.to_string()),
    }
}

/// Tells the variants of `serde_json::Value` apart.
#[verifier::external_body]
fn json_shape(v: &serde_json::Value) -> (r: JsonShape)
    ensures
        r == json_shape_of(*v),
{
    match v {
        serde_json::Value::Null => JsonShape::Null,
        serde_json::Value::Bool(b) => JsonShape::Bool(*b),
        serde_json::Value::Number(_) => JsonShape::Number,
        serde_json::Value::String(s) => JsonShape::Str(s.clone()),
        serde_json::Value::Array(_) => JsonShape::Array,
        serde_json::Value::Object(_) => JsonShape::Object,
    }
}

/// Calls `serde_json::Value::as_i64`.
#[verifier::external_body]
fn json_as_i64(v: &serde_json::Value) -> (r: Option<i64>)
    ensures
        r == json_i64_of(*v),
{
    v.as_i64()
}

/// Calls `serde_json::Value::as_f64` and gives the float's bits and `Display` text.
#[verifier::external_body]
fn json_as_f64(v: &serde_json::Value) -> (r: Option<FloatValue>)
    ensures
        match r {
            Some(f) => json_f64_of(*v) == Some((f.bits, f.text@)),
            None => json_f64_of(*v) is None,
        },
{
    match v.as_f64() {
        Some(x) => Some(FloatValue { bits: x.to_bits(), text: format!("{}", x) }),
        None => None,
    }
}

/// Calls `Display` of the `serde_json::Number` held by a value.
#[verifier::external_body]
fn json_number_text(v: &serde_json::Value) -> (r: String)
    ensures
        r@ == json_number_text_of(*v),
{
    match v {
        serde_json::Value::Number(n) => n.to_string(),
        _ => String::new(),
    }
}

/// Moves the items out of an array value.
#[verifier::external_body]
fn json_into_items(v: serde_json::Value) -> (r: Vec<serde_json::Value>)
    ensures
        r@ == json_items_of(v),
{
    match v {
        serde_json::Value::Array(items) => items,
        _ => Vec::new(),
    }
}

/// Moves the entries out of an object value (`serde_json::Map::into_iter`), in map
/// order; a map holds each key once, so the keys are distinct.
#[verifier::external_body]
fn json_into_entries(v: serde_json::Value) -> (r: Vec<(String, serde_json::Value)>)
    ensures
        r@.len() == json_entries_of(v).len(),
        forall|i: int|
            0 <= i < r@.len() ==> (#[trigger] r@[i]).0@ == json_entries_of(v)[i].0 && r@[i].1
                == json_entries_of(v)[i].1,
        forall|i: int, j: int| 0 <= i < j < r@.len() ==> (#[trigger] r@[i]).0@ != (#[trigger] r@[j]).0@,
{
    match v {
        serde_json::Value::Object(m) => m.into_iter().collect(),
        _ => Vec::new(),
    }
}

// ── The tree of a JSON value ────────────────────────────────────────────────

/// The value nests at most `b` levels (a scalar is one level).
pub open spec fn json_within(v: serde_json::Value, b: nat) -> bool
    decreases b, 1nat, 0nat,
{
    b > 0 && match json_shape_of(v) {
        JsonShape::Array => json_items_within(
            json_items_of(v),
            (b - 1) as nat,
            json_items_of(v).len() as int,
        ),
        JsonShape::Object => json_entries_within(
            json_entries_of(v),
            (b - 1) as nat,
            json_entries_of(v).len() as int,
        ),
        _ => true,
    }
}

pub open spec fn json_items_within(items: Seq<serde_json::Value>, b: nat, k: int) -> bool
    decreases b, 2nat, k,
{
    if k <= 0 || k > items.len() {
        true
    } else {
        json_items_within(items, b, k - 1) && json_within(items[k - 1], b)
    }
}

pub open spec fn json_entries_within(entries: Seq<(Seq<char>, serde_json::Value)>, b: nat, k: int) -> bool
    decreases b, 2nat, k,
{
    if k <= 0 || k > entries.len() {
        true
    } else {
        json_entries_within(entries, b, k - 1) && json_within(entries[k - 1].1, b)
    }
}

/// A number as the tree holds it: an integer when it fits `i64`, else a float,
/// else its text.
pub open spec fn json_number_node(v: serde_json::Value) -> NodeV {
    match json_i64_of(v) {
        Some(i) => NodeV::Int(i),
        None => match json_f64_of(v) {
            Some(f) => NodeV::Float(f.0, f.1),
            None => NodeV::Str(json_number_text_of(v)),
        },
    }
}

/// `n` is the tree of the JSON value `v`.
pub open spec fn json_ir(v: serde_json::Value, n: NodeV) -> bool
    decreases n,
{
    match json_shape_of(v) {
        JsonShape::Null => n == NodeV::Null,
        JsonShape::Bool(b) => n == NodeV::Bool(b),
        JsonShape::Str(s) => n == NodeV::Str(s@),
        JsonShape::Number => n == json_number_node(v),
        JsonShape::Array => match n {
            NodeV::Array(xs) => xs.len() == json_items_of(v).len() && json_items_ir(
                json_items_of(v),
                xs,
                xs.len() as int,
            ),
            _ => false,
        },
        JsonShape::Object => match n {
            NodeV::Record(fs) => fs.len() == json_entries_of(v).len() && json_entries_ir(
                json_entries_of(v),
                fs,
                fs.len() as int,
            ),
            _ => false,
        },
    }
}

pub open spec fn json_items_ir(items: Seq<serde_json::Value>, xs: Seq<NodeV>, k: int) -> bool
    decreases xs, k,
{
    if k <= 0 || k > xs.len() || k > items.len() {
        k <= 0
    } else {
        json_items_ir(items, xs, k - 1) && json_ir(items[k - 1], xs[k - 1])
    }
}

pub open spec fn json_entries_ir(
    entries: Seq<(Seq<char>, serde_json::Value)>,
    fs: Seq<(Seq<char>, NodeV)>,
    k: int,
) -> bool
    decreases fs, k,
{
    if k <= 0 || k > fs.len() || k > entries.len() {
        k <= 0
    } else {
        json_entries_ir(entries, fs, k - 1) && fs[k - 1].0 == entries[k - 1].0 && json_ir(
            entries[k - 1].1,
            fs[k - 1].1,
        )
    }
}

pub proof fn lemma_json_items_within_prefix(items: Seq<serde_json::Value>, b: nat, n: int, k: int)
    requires
        0 <= k <= n <= items.len(),
        json_items_within(items, b, n),
    ensures
        json_items_within(items, b, k),
    decreases n - k,
{
    if k < n {
        lemma_json_items_within_prefix(items, b, n - 1, k);
    }
}

pub proof fn lemma_json_entries_within_prefix(
    entries: Seq<(Seq<char>, serde_json::Value)>,
    b: nat,
    n: int,
    k: int,
)
    requires
        0 <= k <= n <= entries.len(),
        json_entries_within(entries, b, n),
    ensures
        json_entries_within(entries, b, k),
    decreases n - k,
{
    if k < n {
        lemma_json_entries_within_prefix(entries, b, n - 1, k);
    }
}

/// A number: an integer when it fits `i64`, else a float, else its text.
fn number_to_node(v: &serde_json::Value) -> (r: Node)
    ensures
        r@ == json_number_node(*v),
{
    match json_as_i64(v) {
        Some(i) => Node::Primitive(Primitive::Int(i)),
        None => match json_as_f64(v) {
            Some(f) => Node::Primitive(Primitive::Float(f)),
            None => Node::Primitive(Primitive::Str(json_number_text(v))),
        },
    }
}

/// Builds the tree of `v`, allowing `b` levels of nesting: `None` exactly when
/// `v` nests deeper.
pub fn value_to_node(v: serde_json::Value, b: usize) -> (r: Option<Node>)
    ensures
        r is Some <==> json_within(v, b as nat),
        r matches Some(n) ==> json_ir(v, n@) && unique_keys(n@),
    decreases b,
{
    if b == 0 {
        return None;
    }
    let shape = json_shape(&v);
    match shape {
        JsonShape::Null => Some(Node::Null),
        JsonShape::Bool(x) => Some(Node::Primitive(Primitive::Bool(x))),
        JsonShape::Str(s) => Some(Node::Primitive(Primitive::Str(s))),
        JsonShape::Number => Some(number_to_node(&v)),
        JsonShape::Array => {
            let ghost vv = v;
            let items = json_into_items(v);
            let ghost its = items@;
            let mut rev: Vec<serde_json::Value> = Vec::new();
            let mut items = items;
            while items.len() > 0
                invariant
                    its == json_items_of(vv),
                    its.len() == items@.len() + rev@.len(),
                    items@ == its.take(items@.len() as int),
                    forall|t: int| 0 <= t < rev@.len() ==> #[trigger] rev@[t] == its[its.len() - 1 - t],
                decreases items.len(),
            {
                let ghost before = items@;
                let x = items.pop().unwrap();
                assert(x == its[items@.len() as int]);
                rev.push(x);
                assert(items@ =~= its.take(items@.len() as int));
            }
            let mut out: Vec<Node> = Vec::new();
            let ghost bb = (b - 1) as nat;
            while rev.len() > 0
                invariant
                    its == json_items_of(vv),
                    vv == v,
                    json_shape_of(vv) == JsonShape::Array,
                    its.len() == out@.len() + rev@.len(),
                    bb == (b - 1) as nat,
                    b > 0,
                    forall|t: int| 0 <= t < rev@.len() ==> #[trigger] rev@[t] == its[its.len() - 1 - t],
                    json_items_within(its, bb, out@.len() as int),
                    json_items_ir(
                        its,
                        out@.map_values(|n: Node| node_view(n)),
                        out@.len() as int,
                    ),
                    items_unique(out@.map_values(|n: Node| node_view(n))),
                decreases rev.len(),
            {
                let k = out.len();
                let x = rev.pop().unwrap();
                assert(x == its[k as int]);
                match value_to_node(x, b - 1) {
                    Some(n) => {
                        let ghost prev = out@.map_values(|n: Node| node_view(n));
                        out.push(n);
                        proof {
                            let now = out@.map_values(|n: Node| node_view(n));
                            assert(now.take(k as int) =~= prev);
                            assert(now[k as int] == node_view(n));
                            lemma_items_ir_extend(its, prev, now, k as int);
                            assert(now.drop_last() =~= prev);
                        }
                    },
                    None => {
                        proof {
                            assert(!json_within(its[k as int], bb));
                            if json_within(vv, b as nat) {
                                assert(json_items_within(its, bb, its.len() as int));
                                lemma_json_items_within_prefix(its, bb, its.len() as int, k + 1);
                                assert(json_items_within(its, bb, k + 1));
                                assert(false);
                            }
                        }
                        return None;
                    },
                }
            }
            proof {
                lemma_array_view(out);
                assert(out@.map_values(|n: Node| node_view(n)).len() == its.len());

            }
            Some(Node::Array(out))
        },
        JsonShape::Object => {
            let ghost vv = v;
            let entries = json_into_entries(v);
            let ghost es = json_entries_of(vv);
            assert forall|i: int, j: int| 0 <= i < j < es.len() implies #[trigger] es[i].0
                != #[trigger] es[j].0 by {
                assert(entries@[i].0@ == es[i].0 && entries@[j].0@ == es[j].0);
            }
            let mut rev: Vec<(String, serde_json::Value)> = Vec::new();
            let mut entries = entries;
            while entries.len() > 0
                invariant
                    es == json_entries_of(vv),
                    es.len() == entries@.len() + rev@.len(),
                    forall|t: int|
                        0 <= t < entries@.len() ==> (#[trigger] entries@[t]).0@ == es[t].0
                            && entries@[t].1 == es[t].1,
                    forall|t: int|
                        0 <= t < rev@.len() ==> (#[trigger] rev@[t]).0@ == es[es.len() - 1
                            - t].0 && rev@[t].1 == es[es.len() - 1 - t].1,
                decreases entries.len(),
            {
                let x = entries.pop().unwrap();
                rev.push(x);
            }
            let mut fields: Vec<(String, Node)> = Vec::new();
            let ghost bb = (b - 1) as nat;
            while rev.len() > 0
                invariant
                    es == json_entries_of(vv),
                    vv == v,
                    json_shape_of(vv) == JsonShape::Object,
                    es.len() == fields@.len() + rev@.len(),
                    bb == (b - 1) as nat,
                    b > 0,
                    forall|t: int|
                        0 <= t < rev@.len() ==> (#[trigger] rev@[t]).0@ == es[es.len() - 1
                            - t].0 && rev@[t].1 == es[es.len() - 1 - t].1,
                    json_entries_within(es, bb, fields@.len() as int),
                    json_entries_ir(es, fields_view(fields@), fields@.len() as int),
                    forall|i: int, j: int| 0 <= i < j < es.len() ==> #[trigger] es[i].0 != #[trigger] es[j].0,
                    forall|t: int| 0 <= t < fields@.len() ==> (#[trigger] fields@[t]).0@ == es[t].0,
                    fields_unique(fields_view(fields@)),
                decreases rev.len(),
            {
                let k = fields.len();
                let (key, x) = rev.pop().unwrap();
                assert(key@ == es[k as int].0 && x == es[k as int].1);
                match value_to_node(x, b - 1) {
                    Some(n) => {
                        let ghost prev = fields_view(fields@);
                        fields.push((key, n));
                        proof {
                            let now = fields_view(fields@);
                            assert(now.take(k as int) =~= prev);
                            assert(now[k as int] == (es[k as int].0, node_view(n)));
                            lemma_entries_ir_extend(es, prev, now, k as int);
                            assert(now.drop_last() =~= prev);
                        }
                    },
                    None => {
                        proof {
                            assert(!json_within(es[k as int].1, bb));
                            if json_within(vv, b as nat) {
                                assert(json_entries_within(es, bb, es.len() as int));
                                lemma_json_entries_within_prefix(es, bb, es.len() as int, k + 1);
                                assert(json_entries_within(es, bb, k + 1));
                                assert(false);
                            }
                        }
                        return None;
                    },
                }
            }
            let rec = Record { fields };
            proof {
                lemma_record_view(rec);
                let fs = fields_view(rec.fields@);
                assert forall|i: int, j: int| 0 <= i < j < fs.len() implies #[trigger] fs[i].0
                    != #[trigger] fs[j].0 by {
                    assert(fs[i].0 == rec.fields@[i].0@ && fs[j].0 == rec.fields@[j].0@);
                }
            }
            Some(Node::Record(rec))
        },
    }
}

proof fn lemma_items_ir_extend(items: Seq<serde_json::Value>, prev: Seq<NodeV>, now: Seq<NodeV>, k: int)
    requires
        0 <= k < items.len(),
        prev.len() == k,
        now.len() == k + 1,
        now.take(k) == prev,
        json_items_ir(items, prev, k),
        json_ir(items[k], now[k]),
    ensures
        json_items_ir(items, now, k + 1),
{
    lemma_items_ir_same(items, prev, now, k);
}

proof fn lemma_items_ir_same(items: Seq<serde_json::Value>, a: Seq<NodeV>, b: Seq<NodeV>, k: int)
    requires
        0 <= k <= a.len(),
        k <= b.len(),
        forall|t: int| 0 <= t < k ==> a[t] == b[t],
        json_items_ir(items, a, k),
    ensures
        json_items_ir(items, b, k),
    decreases k,
{
    if k > 0 {
        lemma_items_ir_same(items, a, b, k - 1);
    }
}

proof fn lemma_entries_ir_extend(
    entries: Seq<(Seq<char>, serde_json::Value)>,
    prev: Seq<(Seq<char>, NodeV)>,
    now: Seq<(Seq<char>, NodeV)>,
    k: int,
)
    requires
        0 <= k < entries.len(),
        prev.len() == k,
        now.len() == k + 1,
        now.take(k) == prev,
        json_entries_ir(entries, prev, k),
        now[k].0 == entries[k].0,
        json_ir(entries[k].1, now[k].1),
    ensures
        json_entries_ir(entries, now, k + 1),
{
    lemma_entries_ir_same(entries, prev, now, k);
}

proof fn lemma_entries_ir_same(
    entries: Seq<(Seq<char>, serde_json::Value)>,
    a: Seq<(Seq<char>, NodeV)>,
    b: Seq<(Seq<char>, NodeV)>,
    k: int,
)
    requires
        0 <= k <= a.len(),
        k <= b.len(),
        forall|t: int| 0 <= t < k ==> a[t] == b[t],
        json_entries_ir(entries, a, k),
    ensures
        json_entries_ir(entries, b, k),
    decreases k,
{
    if k > 0 {
        lemma_entries_ir_same(entries, a, b, k - 1);
    }
}

proof fn lemma_json_items_ir_at(items: Seq<serde_json::Value>, xs: Seq<NodeV>, k: int)
    requires
        0 <= k <= xs.len(),
        k <= items.len(),
        json_items_ir(items, xs, k),
    ensures
        forall|t: int| 0 <= t < k ==> json_ir(items[t], #[trigger] xs[t]),
    decreases k,
{
    if k > 0 {
        lemma_json_items_ir_at(items, xs, k - 1);
    }
}

proof fn lemma_json_entries_ir_at(
    entries: Seq<(Seq<char>, serde_json::Value)>,
    fs: Seq<(Seq<char>, NodeV)>,
    k: int,
)
    requires
        0 <= k <= fs.len(),
        k <= entries.len(),
        json_entries_ir(entries, fs, k),
    ensures
        forall|t: int|
            0 <= t < k ==> (#[trigger] fs[t]).0 == entries[t].0 && json_ir(entries[t].1, fs[t].1),
    decreases k,
{
    if k > 0 {
        lemma_json_entries_ir_at(entries, fs, k - 1);
    }
}

/// A JSON value has one tree.
pub proof fn lemma_json_ir_unique(v: serde_json::Value, n1: NodeV, n2: NodeV)
    requires
        json_ir(v, n1),
        json_ir(v, n2),
    ensures
        n1 == n2,
    decreases n1,
{
    match json_shape_of(v) {
        JsonShape::Array => {
            let items = json_items_of(v);
            let xs1 = n1->Array_0;
            let xs2 = n2->Array_0;
            lemma_json_items_ir_at(items, xs1, xs1.len() as int);
            lemma_json_items_ir_at(items, xs2, xs2.len() as int);
            assert forall|t: int| 0 <= t < xs1.len() implies xs1[t] == xs2[t] by {
                assert(json_ir(items[t], xs1[t]));
                assert(json_ir(items[t], xs2[t]));
                lemma_json_ir_unique(items[t], xs1[t], xs2[t]);
            }
            assert(xs1 =~= xs2);
        },
        JsonShape::Object => {
            let entries = json_entries_of(v);
            let fs1 = n1->Record_0;
            let fs2 = n2->Record_0;
            lemma_json_entries_ir_at(entries, fs1, fs1.len() as int);
            lemma_json_entries_ir_at(entries, fs2, fs2.len() as int);
            assert forall|t: int| 0 <= t < fs1.len() implies fs1[t] == fs2[t] by {
                assert(json_ir(entries[t].1, fs1[t].1));
                assert(json_ir(entries[t].1, fs2[t].1));
                lemma_json_ir_unique(entries[t].1, fs1[t].1, fs2[t].1);
            }
            assert(fs1 =~= fs2);
        },
        _ => {},
    }
}

/// The message of a JSON parse error.
pub open spec fn json_error_message(e: Seq<char>) -> Seq<char> {
    "JSON parse error: "@ + e
}

/// The message for a document that nests deeper than `MAX_NESTING`.
pub open spec fn json_depth_message() -> Seq<char> {
    "JSON parse error: document nests too deeply"@
}

/// The tree for what the JSON parser returned: its error becomes a parse
/// error with the parser's message; a value becomes its tree, unless it nests
/// deeper than `MAX_NESTING`.
pub fn from_parse_result(parsed: Result<serde_json::Value, String>) -> (r: Result<Node, ConvertError>)
    ensures
        match parsed {
            Err(e) => r matches Err(ConvertError::Parse(m)) && m@ == json_error_message(e@),
            Ok(v) => if json_within(v, MAX_NESTING as nat) {
                r matches Ok(n) && json_ir(v, n@)
            } else {
                r matches Err(ConvertError::Parse(m)) && m@ == json_depth_message()
            },
        },
        r matches Ok(n) ==> unique_keys(n@),
{
    match parsed {
        Ok(v) => {
            match value_to_node(v, MAX_NESTING) {
                Some(n) => Ok(n),
                None => {
                    let mut m: Vec<char> = Vec::new();
                    append_str(&mut m, "JSON parse error: document nests too deeply");
                    Err(ConvertError::Parse(string_from_chars(m.as_slice())))
                },
            }
        },
        Err(e) => {
            let mut m: Vec<char> = Vec::new();
            append_str(&mut m, "JSON parse error: ");
            append_str(&mut m, e.as_str());
            Err(ConvertError::Parse(string_from_chars(m.as_slice())))
        },
    }
}

/// Parses a JSON text into the tree.
pub fn parse(input: &str) -> (r: Result<Node, ConvertError>)
    ensures
        match json_parse_outcome(input@) {
            Err(e) => r matches Err(ConvertError::Parse(m)) && m@ == json_error_message(e),
            Ok(v) => if json_within(v, MAX_NESTING as nat) {
                r matches Ok(n) && json_ir(v, n@)
            } else {
                r matches Err(ConvertError::Parse(m)) && m@ == json_depth_message()
            },
        },
        r matches Ok(n) ==> unique_keys(n@),
{
    from_parse_result(json_from_str(input))
}

} // verus!
