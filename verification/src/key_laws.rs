//! What is promised of the keys of joins.

use vstd::prelude::*;

use crate::algebra::{Expr, Plan};
use crate::builders::{
    empty_singleton, is_empty, is_empty_singleton, join, known_truth, lateral, left_join, union_all,
};
use crate::estimate::plan_size;
use crate::for_loop::fits;
use crate::limits::Limits;
use crate::lookups::{has_seeded_subclass_lookup, is_key, join_keys};
use crate::normalize_laws::placed;
use crate::optimizer::lemma_parts_lower;
use crate::reorder::{reorder, reorder_left_join};
use crate::rewrites::{has_one_singleton, keyed_join, singleton_others};
use crate::scope::hygienic;
use crate::semantics::{allowed, eval, regular, World};
use crate::solutions::{compatible, lookup, Solution};
use crate::type_inference::{
    distinct_variables, infer, lemma_position, position, type_of, Types, VariableType,
};
use crate::type_laws::lemma_infer_distinct;
use crate::typing::law_types_are_sound;

verus! {

/// Whether some keys are exactly the variables that always have a value on both sides
/// of a join, and that are not fixed from outside, each once.
pub open spec fn are_keys(keys: Seq<Seq<char>>, left: Types, right: Types, input: Types) -> bool {
    &&& keys.no_duplicates()
    &&& forall|v: Seq<char>| #[trigger]
        keys.contains(v) <==> !type_of(left, v).undef && !type_of(right, v).undef && type_of(
            input,
            v,
        ).undef
}

/// The entries of some types that are kept, in order.
proof fn lemma_kept_entries(
    types: Types,
    keep: spec_fn((Seq<char>, VariableType)) -> bool,
    names: Seq<Seq<char>>,
)
    requires
        distinct_variables(types),
        names == types.filter(keep).map_values(|entry: (Seq<char>, VariableType)| entry.0),
    ensures
        names.no_duplicates(),
        forall|v: Seq<char>| #[trigger]
            names.contains(v) <==> exists|i: int|
                0 <= i < types.len() && (#[trigger] types[i]).0 == v && keep(types[i]),
    decreases types.len(),
{
    reveal(Seq::filter);
    let name = |entry: (Seq<char>, VariableType)| entry.0;
    if types.len() == 0 {
        assert(names =~= seq![]);
    } else {
        let shorter = types.drop_last();
        let last = types.last();
        let n = types.len() - 1;
        let before = shorter.filter(keep).map_values(name);
        assert forall|i: int, j: int|
            0 <= i < shorter.len() && 0 <= j < shorter.len() && i != j implies (
        #[trigger] shorter[i]).0 != (#[trigger] shorter[j]).0 by {
            assert(types[i].0 != types[j].0);
        }
        lemma_kept_entries(shorter, keep, before);
        assert forall|i: int| 0 <= i < shorter.len() implies (#[trigger] shorter[i]).0
            != last.0 by {
            assert(types[i].0 != types[n].0);
        }
        if keep(last) {
            assert(names =~= before.push(last.0));
            assert(!before.contains(last.0));
            assert(names[names.len() - 1] == last.0);
        } else {
            assert(names =~= before);
        }
        assert forall|v: Seq<char>| #[trigger] names.contains(v) <==> exists|i: int|
            0 <= i < types.len() && (#[trigger] types[i]).0 == v && keep(types[i]) by {
            if names.contains(v) {
                let k = choose|k: int| 0 <= k < names.len() && names[k] == v;
                if k < before.len() {
                    assert(before[k] == v);
                    assert(before.contains(v));
                    let i = choose|i: int|
                        0 <= i < shorter.len() && (#[trigger] shorter[i]).0 == v && keep(shorter[i]);
                    assert(types[i].0 == v);
                } else {
                    assert(types[n].0 == v);
                }
            }
            if exists|i: int|
                0 <= i < types.len() && (#[trigger] types[i]).0 == v && keep(types[i]) {
                let i = choose|i: int|
                    0 <= i < types.len() && (#[trigger] types[i]).0 == v && keep(types[i]);
                if i < n {
                    assert(shorter[i].0 == v);
                    assert(before.contains(v));
                    let k = choose|k: int| 0 <= k < before.len() && before[k] == v;
                    assert(names[k] == v);
                }
            }
        }
    }
}

/// The variables on which two sides are joined are their keys.
pub proof fn lemma_keys(left: Types, right: Types, input: Types)
    requires
        distinct_variables(left),
    ensures
        are_keys(join_keys(left, right, input), left, right, input),
        distinct_variables(right) ==> are_keys(join_keys(left, right, input), right, left, input),
{
    let keep = |entry: (Seq<char>, VariableType)| is_key(entry, right, input);
    let keys = join_keys(left, right, input);
    lemma_kept_entries(left, keep, keys);
    assert forall|v: Seq<char>| #[trigger] keys.contains(v) <==> !type_of(left, v).undef
        && !type_of(right, v).undef && type_of(input, v).undef by {
        lemma_position(left, v);
        let p = position(left, v);
        if keys.contains(v) {
            let i = choose|i: int|
                0 <= i < left.len() && (#[trigger] left[i]).0 == v && keep(left[i]);
            assert(p == i);
        }
        if !type_of(left, v).undef && !type_of(right, v).undef && type_of(input, v).undef {
            assert(left[p].0 == v && keep(left[p]));
        }
    }
}

/// A join by the variables that both sides bind has exactly these as its keys.
pub proof fn law_inner_join_keys(left: Plan, right: Plan, types: Types)
    requires
        distinct_variables(types),
        !is_empty(left) && !is_empty_singleton(left),
        !is_empty(right) && !is_empty_singleton(right),
    ensures
        keyed_join(left, right, types) matches Plan::Join { left: l, right: r, keys } && *l == left
            && *r == right && are_keys(keys, infer(left, types), infer(right, types), types),
{
    lemma_infer_distinct(left, types);
    lemma_keys(infer(left, types), infer(right, types), types);
}

/// A left join whose right side adds something becomes a left join of the same sides
/// with exactly the variables that both always bind as its keys, unless its right
/// side fits a loop or has a row without values. In a loop the two sides share a
/// variable. A right side with a row without values becomes a branch of a union that
/// is joined by exactly the variables that both sides bind.
pub proof fn law_left_join_keys(
    left: Plan,
    right: Plan,
    expression: Expr,
    types: Types,
    limits: Limits,
)
    requires
        distinct_variables(types),
        !is_empty(left),
        !is_empty(right) && !is_empty_singleton(right),
        known_truth(expression) != Some(false),
    ensures
        ({
            let new = reorder_left_join(left, right, expression, types, limits);
            let (a, b) = (infer(left, types), infer(right, types));
            let united = known_truth(expression) == Some(true) && has_one_singleton(right);
            let by_keys = new matches Plan::LeftJoin { left: l, right: r, keys, .. } && *l == left
                && *r == right && are_keys(keys, a, b, types);
            &&& !united && !fits(right, types, a, plan_size(left, types, limits), limits) ==> by_keys
            &&& united && has_seeded_subclass_lookup(left, types, limits) ==> by_keys
            &&& !united ==> by_keys || {
                &&& new == lateral(left, left_join(empty_singleton(), right, expression, seq![]))
                &&& exists|v: Seq<char>|
                    !(#[trigger] type_of(a, v)).undef && !type_of(b, v).undef && type_of(
                        types,
                        v,
                    ).undef
            }
            &&& united && !has_seeded_subclass_lookup(left, types, limits) ==> {
                let others = singleton_others(right);
                if others.len() == 0 {
                    new == left
                } else {
                    exists|keys: Seq<Seq<char>>|
                        #![trigger join(left, union_all(others), keys)]
                        {
                            &&& are_keys(keys, a, infer(union_all(others), types), types)
                            &&& new == union_all(
                                seq![left, join(left, union_all(others), keys)],
                            )
                        }
                }
            }
        }),
{
    let (a, b) = (infer(left, types), infer(right, types));
    lemma_infer_distinct(left, types);
    lemma_keys(a, b, types);
    lemma_keys(a, infer(union_all(singleton_others(right)), types), types);
    if exists|i: int| 0 <= i < a.len() && is_key(#[trigger] a[i], b, types) {
        let i = choose|i: int| 0 <= i < a.len() && is_key(#[trigger] a[i], b, types);
        let v = a[i].0;
        lemma_position(a, v);
        assert(position(a, v) == i);
        assert(!type_of(a, v).undef);
    }
    let others = singleton_others(right);
    let keys = join_keys(a, infer(union_all(others), types), types);
    assert(keyed_join(left, union_all(others), types) == join(left, union_all(others), keys));
}

/// A difference stays one of the same sides, each reordered, with exactly the
/// variables that both always bind as its keys.
pub proof fn law_minus_keys(
    left: Plan,
    right: Plan,
    old: Seq<Seq<char>>,
    types: Types,
    limits: Limits,
)
    requires
        distinct_variables(types),
        !is_empty(reorder(left, types, limits)),
        !is_empty(reorder(right, types, limits)),
    ensures
        reorder(
            (Plan::Minus { left: Box::new(left), right: Box::new(right), keys: old }),
            types,
            limits,
        ) matches Plan::Minus { left: l, right: r, keys } && *l == reorder(left, types, limits)
            && *r == reorder(right, types, limits) && are_keys(
            keys,
            infer(*l, types),
            infer(*r, types),
            types,
        ),
{
    let plan = Plan::Minus { left: Box::new(left), right: Box::new(right), keys: old };
    let l = reorder(left, types, limits);
    lemma_parts_lower(plan);
    lemma_infer_distinct(l, types);
    lemma_keys(infer(l, types), infer(reorder(right, types, limits), types), types);
}

/// A join that only pairs solutions with the same values of its keys misses nothing:
/// all solutions of both sides have values of the keys, and those that agree have the
/// same.
pub proof fn law_keys_miss_nothing(
    world: World,
    left: Plan,
    right: Plan,
    keys: Seq<Seq<char>>,
    types: Types,
    input: Solution,
    outside: Set<Seq<char>>,
    s: Solution,
    t: Solution,
    key: Seq<char>,
)
    requires
        regular(world),
        placed(input, types, outside),
        hygienic(left, outside),
        hygienic(right, outside),
        are_keys(keys, infer(left, types), infer(right, types), types),
        keys.contains(key),
        eval(world, left, input).contains(s),
        eval(world, right, input).contains(t),
    ensures
        s.dom().contains(key) && t.dom().contains(key),
        compatible(s, t) ==> lookup(s, key) == lookup(t, key),
{
    law_types_are_sound(world, left, input, types, outside, s);
    law_types_are_sound(world, right, input, types, outside, t);
    assert(allowed(type_of(infer(left, types), key), lookup(s, key), false));
    assert(allowed(type_of(infer(right, types), key), lookup(t, key), false));
}

} // verus!
