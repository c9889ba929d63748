//! Naming: readable identifiers for the induced enums and functions.
pub mod heuristics;

use vstd::prelude::*;
use crate::induction::InductionResult;
use crate::induction::enums::{EnumCandidate, EnumV, enums_view};
use crate::induction::functions::{FuncCandidate, FuncV, funcs_view};
use crate::naming::heuristics::{name_enum, name_func, pascal, singular, singularize};
use crate::ConvertOptions;

verus! {

/// An induction result whose candidates all carry names.
#[derive(Debug)]
pub struct Named {
    pub result: InductionResult,
}

/// The name an enum candidate ends up with: an empty name is derived from the
/// candidate's first key (PascalCase, or `MyEnum` when it has none).
pub open spec fn named_enum(e: EnumV) -> EnumV {
    EnumV {
        name: if e.name.len() == 0 {
            if e.keys.len() == 0 {
                "MyEnum"@
            } else {
                pascal(e.keys[0])
            }
        } else {
            e.name
        },
        ..e
    }
}

/// The name a function candidate ends up with: the array key it was found
/// under, singularised; a candidate found under no key is named from its first
/// parameter (singularised, or `make_entry` when it has none).
pub open spec fn named_func(f: FuncV) -> FuncV {
    FuncV {
        name: if f.name.len() == 0 {
            if f.params.len() == 0 {
                "make_entry"@
            } else {
                singular(f.params[0])
            }
        } else {
            singular(f.name)
        },
        ..f
    }
}

/// Assigns readable names to all induced enums and functions.
pub fn resolve(result: InductionResult, _opts: &ConvertOptions) -> (r: Named)
    ensures
        r.result.root@ == result.root@,
        enums_view(r.result.enums@) == enums_view(result.enums@).map_values(
            |e: EnumV| named_enum(e),
        ),
        funcs_view(r.result.funcs@) == funcs_view(result.funcs@).map_values(
            |f: FuncV| named_func(f),
        ),
{
    let InductionResult { root, enums, funcs } = result;
    let ghost ev = enums_view(enums@);
    let ghost fv = funcs_view(funcs@);
    let mut enums = enums;
    let mut named_enums: Vec<EnumCandidate> = Vec::new();
    let ghost mut done: int = 0;
    assert(ev.skip(0) =~= ev);
    while enums.len() > 0
        invariant
            0 <= done <= ev.len(),
            enums_view(enums@) == ev.skip(done),
            enums_view(named_enums@) == ev.take(done).map_values(|e: EnumV| named_enum(e)),
        decreases enums.len(),
    {
        let ghost before = enums_view(enums@);
        let mut e = enums.remove(0);
        proof {
            assert(before[0] == e@);
            assert(enums_view(enums@) =~= before.drop_first());
            assert(ev.skip(done).drop_first() =~= ev.skip(done + 1));
        }
        let ghost ev0 = e@;
        if e.name.as_str().is_empty() {
            e.name = name_enum(e.keys.as_slice());
        }
        assert(e@ == named_enum(ev0));
        let ghost prev = enums_view(named_enums@);
        named_enums.push(e);
        proof {
            assert(enums_view(named_enums@) =~= prev.push(named_enum(ev0)));
            assert(ev.take(done + 1).map_values(|e: EnumV| named_enum(e)) =~= ev.take(done).map_values(
                |e: EnumV| named_enum(e),
            ).push(named_enum(ev[done])));
            done = done + 1;
        }
    }
    assert(ev.take(done) =~= ev);
    let mut funcs = funcs;
    let mut named_funcs: Vec<FuncCandidate> = Vec::new();
    let ghost mut fdone: int = 0;
    assert(fv.skip(0) =~= fv);
    while funcs.len() > 0
        invariant
            0 <= fdone <= fv.len(),
            funcs_view(funcs@) == fv.skip(fdone),
            funcs_view(named_funcs@) == fv.take(fdone).map_values(|f: FuncV| named_func(f)),
        decreases funcs.len(),
    {
        let ghost before = funcs_view(funcs@);
        let mut f = funcs.remove(0);
        proof {
            assert(before[0] == f@);
            assert(funcs_view(funcs@) =~= before.drop_first());
            assert(fv.skip(fdone).drop_first() =~= fv.skip(fdone + 1));
        }
        let ghost fv0 = f@;
        if f.name.as_str().is_empty() {
            f.name = name_func(f.param_keys.as_slice());
        } else {
            f.name = singularize(f.name.as_str());
        }
        assert(f@ == named_func(fv0));
        let ghost prev = funcs_view(named_funcs@);
        named_funcs.push(f);
        proof {
            assert(funcs_view(named_funcs@) =~= prev.push(named_func(fv0)));
            assert(fv.take(fdone + 1).map_values(|f: FuncV| named_func(f)) =~= fv.take(fdone).map_values(
                |f: FuncV| named_func(f),
            ).push(named_func(fv[fdone])));
            fdone = fdone + 1;
        }
    }
    assert(fv.take(fdone) =~= fv);
    Named { result: InductionResult { root, enums: named_enums, funcs: named_funcs } }
}

} // verus!
