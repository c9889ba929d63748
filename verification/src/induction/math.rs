//! Savings estimation: character-level deltas of the optimisations.
//!
//! Each estimate is a signed character count: positive is a saving, negative
//! an overhead (the optimisation would bloat the output).
use vstd::prelude::*;
use crate::text::{byte_len, str_byte_len};

verus! {

/// Σ (byte length + 2) over the distinct string values of a field: the cost of
/// writing each of them once, quoted.
pub open spec fn value_cost(values: Seq<Seq<char>>) -> nat
    decreases values.len(),
{
    if values.len() == 0 {
        0
    } else {
        value_cost(values.drop_last()) + byte_len(values.last()) + 2
    }
}

/// Estimated saving from turning a string field into an enum.
///
///   plain     = avg_quoted_len × total_uses, avg_quoted_len = ⌊value_cost / #values⌋
///   optimised = (value_cost + 12) + 12 × total_uses
///   saving    = plain − optimised
///
/// The definition costs each value once (with its separator) plus about 12
/// characters of outer syntax; each use then costs a reference `EnumName.FIELD`
/// of about 12 characters. Short values therefore rarely pay off: `SWORD` ×5,
/// `BOW` ×3, `STAFF` ×2 give 6 × 10 − 31 − 120 = −91.
pub open spec fn enum_saving_spec(values: Seq<Seq<char>>, total_uses: nat) -> int {
    if values.len() == 0 || total_uses == 0 {
        0
    } else {
        let avg = value_cost(values) / values.len();
        avg * total_uses - (value_cost(values) + 12 + 12 * total_uses)
    }
}

/// Every intermediate value of the enum estimate fits in `isize`.
pub open spec fn enum_saving_fits(values: Seq<Seq<char>>, total_uses: nat) -> bool {
    values.len() == 0 || total_uses == 0 || (value_cost(values) + 12 + 12 * total_uses
        <= isize::MAX && (value_cost(values) / values.len()) * total_uses <= isize::MAX)
}

/// Estimated saving from extracting `instance_count` repeated objects into a QuickFunc.
///
///   func_def  = 12 × params + 20 × statics + 30
///   call      = 8 × params + 6            (per instance)
///   object    = 12 × params + 20 × statics + 4   (per instance)
///   saving    = object × instances − func_def − call × instances
pub open spec fn func_saving_spec(param_count: nat, static_field_count: nat, instance_count: nat) -> int {
    let func_def = param_count * 12 + static_field_count * 20 + 30;
    let call_cost = param_count * 8 + 6;
    let obj_cost = param_count * 12 + static_field_count * 20 + 4;
    obj_cost * instance_count - (func_def + call_cost * instance_count)
}

/// Every intermediate value of the QuickFunc estimate fits in `isize`.
pub open spec fn func_saving_fits(param_count: nat, static_field_count: nat, instance_count: nat) -> bool {
    let func_def = param_count * 12 + static_field_count * 20 + 30;
    let call_cost = param_count * 8 + 6;
    let obj_cost = param_count * 12 + static_field_count * 20 + 4;
    &&& func_def <= isize::MAX
    &&& instance_count <= isize::MAX
    &&& obj_cost * instance_count <= isize::MAX
    &&& func_def + call_cost * instance_count <= isize::MAX
}

proof fn lemma_value_cost_prefix(values: Seq<Seq<char>>, i: int)
    requires
        0 <= i <= values.len(),
    ensures
        value_cost(values.take(i)) <= value_cost(values),
    decreases values.len() - i,
{
    if i < values.len() {
        lemma_value_cost_prefix(values, i + 1);
        assert(values.take(i + 1).drop_last() =~= values.take(i));
    } else {
        assert(values.take(i) =~= values);
    }
}

/// The enum estimate, or `None` when an intermediate value leaves `isize`.
pub fn enum_saving_checked(values: &Vec<String>, total_uses: usize) -> (r: Option<isize>)
    ensures
        r is Some <==> enum_saving_fits(values@.map_values(|v: String| v@), total_uses as nat),
        r matches Some(s) ==> s == enum_saving_spec(
            values@.map_values(|v: String| v@),
            total_uses as nat,
        ),
{
    let ghost vs = values@.map_values(|v: String| v@);
    if values.len() == 0 || total_uses == 0 {
        return Some(0);
    }
    let mut cost: usize = 0;
    let mut i: usize = 0;
    while i < values.len()
        invariant
            i <= values.len(),
            vs == values@.map_values(|v: String| v@),
            values.len() > 0,
            total_uses > 0,
            cost as nat == value_cost(vs.take(i as int)),
        decreases values.len() - i,
    {
        proof {
            assert(vs.take(i + 1).drop_last() =~= vs.take(i as int));
            lemma_value_cost_prefix(vs, i + 1);
            assert(vs.take(i + 1).last() == values@[i as int]@);
        }
        let n = str_byte_len(values[i].as_str());
        if n > usize::MAX - 2 || cost > usize::MAX - 2 - n {
            return None;
        }
        cost = cost + n + 2;
        i = i + 1;
    }
    assert(vs.take(i as int) =~= vs);
    if cost > (isize::MAX as usize) - 12 {
        return None;
    }
    let avg = cost / values.len();
    let total = if total_uses > (isize::MAX as usize) {
        return None;
    } else {
        total_uses as isize
    };
    let plain = match (avg as isize).checked_mul(total) {
        Some(v) => v,
        None => return None,
    };
    let refs = match (12isize).checked_mul(total) {
        Some(v) => v,
        None => return None,
    };
    let optimised = match (cost as isize + 12).checked_add(refs) {
        Some(v) => v,
        None => return None,
    };
    Some(plain - optimised)
}

/// Estimated net saving from converting a string field to an enum; `values`
/// maps each distinct value to its number of uses (the counts do not enter the
/// estimate).
pub fn enum_saving(values: &Vec<(String, usize)>, total_uses: usize) -> (r: isize)
    requires
        forall|i: int, j: int|
            0 <= i < j < values@.len() ==> (#[trigger] values@[i]).0@ != (#[trigger] values@[j]).0@,
        enum_saving_fits(values@.map_values(|e: (String, usize)| e.0@), total_uses as nat),
    ensures
        r == enum_saving_spec(values@.map_values(|e: (String, usize)| e.0@), total_uses as nat),
{
    let mut keys: Vec<String> = Vec::new();
    let mut i: usize = 0;
    while i < values.len()
        invariant
            i <= values.len(),
            keys@.map_values(|v: String| v@) == values@.take(i as int).map_values(
                |e: (String, usize)| e.0@,
            ),
        decreases values.len() - i,
    {
        let ghost prev = keys@.map_values(|v: String| v@);
        keys.push(values[i].0.clone());
        assert(keys@.map_values(|v: String| v@) =~= prev.push(values@[i as int].0@));
        assert(values@.take(i + 1).map_values(|e: (String, usize)| e.0@) =~= values@.take(
            i as int,
        ).map_values(|e: (String, usize)| e.0@).push(values@[i as int].0@));
        i = i + 1;
    }
    assert(values@.take(i as int) =~= values@);
    match enum_saving_checked(&keys, total_uses) {
        Some(s) => s,
        None => 0,
    }
}

/// The QuickFunc estimate, or `None` when an intermediate value leaves `isize`.
pub fn func_saving_checked(param_count: usize, static_field_count: usize, instance_count: usize) -> (r: Option<isize>)
    ensures
        r is Some <==> func_saving_fits(param_count as nat, static_field_count as nat, instance_count as nat),
        r matches Some(s) ==> s == func_saving_spec(
            param_count as nat,
            static_field_count as nat,
            instance_count as nat,
        ),
{
    let m: usize = isize::MAX as usize;
    if param_count > m / 12 || static_field_count > m / 20 || instance_count > m {
        return None;
    }
    let p = param_count as isize;
    let s = static_field_count as isize;
    let n = instance_count as isize;
    let scaled = match (p * 12).checked_add(s * 20) {
        Some(v) => v,
        None => return None,
    };
    let func_def = match scaled.checked_add(30) {
        Some(v) => v,
        None => return None,
    };
    let call_cost = p * 8 + 6;
    let obj_cost = scaled + 4;
    let plain = match obj_cost.checked_mul(n) {
        Some(v) => v,
        None => return None,
    };
    let calls = match call_cost.checked_mul(n) {
        Some(v) => v,
        None => return None,
    };
    let optimised = match func_def.checked_add(calls) {
        Some(v) => v,
        None => return None,
    };
    Some(plain - optimised)
}

/// Estimated net saving from extracting repeated objects into a QuickFunc.
pub fn func_saving(param_count: usize, static_field_count: usize, instance_count: usize) -> (r: isize)
    requires
        func_saving_fits(param_count as nat, static_field_count as nat, instance_count as nat),
    ensures
        r == func_saving_spec(param_count as nat, static_field_count as nat, instance_count as nat),
{
    match func_saving_checked(param_count, static_field_count, instance_count) {
        Some(s) => s,
        None => 0,
    }
}

} // verus!
