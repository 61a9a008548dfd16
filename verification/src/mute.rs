//! Plans that have nothing to do with what gets known in a loop.

use vstd::prelude::*;

use crate::algebra::{Expr, Plan};
use crate::bags::{lemma_keep_contains, lemma_once, once, same};
use crate::depends::{lemma_same_lookups, lemma_value_depends};
use crate::eval_basics::{lemma_contains_index, lemma_eval_within, lemma_find, within};
use crate::firm::{ignored, lemma_firm, lemma_firm_union, lemma_loose_odd, lemma_odd_part, unheard};
use crate::looping::{lemma_follow_union, lemma_merge_names};
use crate::loops::{
    follows, gained, lemma_follow_apart, lemma_follow_extend, lemma_follow_filter,
    lemma_follow_join, lemma_follow_lateral, lemma_follow_left_join, lemma_follow_minus,
    lemma_follow_once,
};
use crate::origins::{
    lemma_extend_origin, lemma_join_origin, lemma_lateral_origin, lemma_left_join_origin,
    lemma_union_origin,
};
use crate::plan_laws::lemma_eval_extends;
use crate::scope::{binds, lemma_eval_binds};
use crate::scoping::{all_loose, odd_variables, plan_paths, Names, Trace};
use crate::semantics::{condition, eval, holds, regular, remains, value, World};
use crate::solutions::{
    agree, compatible, extends, joined_with, lemma_merge_extends, lookup, merge, Solution,
};
use crate::type_inference::{distinct_variables, infer, infer_expr, optional, Types};
use crate::type_laws::{
    lemma_infer_distinct, lemma_intersect_types, lemma_optional_types, lemma_refine_types,
};
use crate::variables::{expr_variables, plan_variables};

verus! {

/// Whether all solutions of a plan extend the input by other variables than some.
pub open spec fn silent(world: World, plan: Plan, input: Solution, names: Names) -> bool {
    forall|t: Solution, v: Seq<char>|
        eval(world, plan, input).contains(t) && #[trigger] names.contains(v)
            ==> !#[trigger] t.dom().contains(v)
}

/// The solutions of a plan that does not use some variables do not bind them.
proof fn lemma_unused_silent(world: World, plan: Plan, input: Solution, names: Names)
    requires
        regular(world),
        plan_variables(plan).disjoint(names),
        input.dom().disjoint(names),
    ensures
        silent(world, plan, input, names),
{
    lemma_eval_within(world, plan, input);
    assert forall|t: Solution, v: Seq<char>|
        eval(world, plan, input).contains(t) && #[trigger] names.contains(v) implies
        !#[trigger] t.dom().contains(v) by {
        let k = lemma_find(eval(world, plan, input), t);
        assert(within(t, input, plan_variables(plan)));
        assert(lookup(t, v) == lookup(input, v));
    }
}

/// A condition does not depend on variables that a plan binds without saying so, as
/// the plan has no solutions then.
proof fn lemma_condition_silent(
    world: World,
    plan: Plan,
    e: Expr,
    less: Solution,
    more: Solution,
    s: Solution,
)
    requires
        regular(world),
        extends(more, less),
        silent(world, plan, less, gained(less, more)),
        expr_variables(e).difference(binds(plan)).disjoint(gained(less, more)),
        eval(world, plan, less).contains(s),
        compatible(more, s),
        extends(s, less),
    ensures
        value(world, e, merge(more, s)) == value(world, e, s),
        holds(world, e, merge(more, s)) == holds(world, e, s),
{
    lemma_merge_names(more, less, s);
    lemma_eval_binds(world, plan, less, s);
    assert(agree(s, merge(more, s), expr_variables(e))) by {
        assert forall|v: Seq<char>| #[trigger] expr_variables(e).contains(v) implies lookup(s, v)
            == lookup(merge(more, s), v) by {
            if more.dom().contains(v) && !s.dom().contains(v) {
                assert(gained(less, more).contains(v));
                assert(!binds(plan).contains(v));
                assert(expr_variables(e).difference(binds(plan)).contains(v));
            }
        }
    }
    lemma_value_depends(world, e, s, merge(more, s));
}

/// The distinct solutions of a plan that binds nothing of what gets known.
proof fn lemma_silent_once(world: World, inner: Plan, less: Solution, more: Solution)
    requires
        regular(world),
        extends(more, less),
        follows(world, inner, less, more),
        silent(world, inner, less, gained(less, more)),
    ensures
        same(
            once(eval(world, inner, more)),
            joined_with(more, once(eval(world, inner, less))),
        ),
{
    let x = eval(world, inner, less);
    lemma_eval_extends(world, inner, less);
    assert forall|i: int, j: int|
        0 <= i < x.len() && 0 <= j < x.len() && compatible(more, x[i]) && compatible(more, x[j])
            && #[trigger] merge(more, x[i]) == #[trigger] merge(more, x[j]) implies x[i]
        == x[j] by {
        let (s, t) = (x[i], x[j]);
        lemma_contains_index(x, i);
        lemma_contains_index(x, j);
        assert(extends(s, less) && extends(t, less));
        lemma_merge_extends(more, s);
        lemma_merge_extends(more, t);
        assert forall|v: Seq<char>| lookup(s, v) == #[trigger] lookup(t, v) by {
            if more.dom().contains(v) && !less.dom().contains(v) {
                assert(gained(less, more).contains(v));
                assert(!s.dom().contains(v) && !t.dom().contains(v));
            } else if !less.dom().contains(v) {
                assert(lookup(merge(more, s), v) == lookup(s, v));
                assert(lookup(merge(more, t), v) == lookup(t, v));
            }
        }
        lemma_same_lookups(s, t);
    }
    lemma_follow_once(more, eval(world, inner, more), x);
}

/// A left join of plans that bind nothing of what gets known.
proof fn lemma_silent_left_join(
    world: World,
    left: Plan,
    right: Plan,
    e: Expr,
    keys: Seq<Seq<char>>,
    less: Solution,
    more: Solution,
)
    requires
        regular(world),
        extends(more, less),
        follows(world, left, less, more),
        follows(world, right, less, more),
        silent(world, left, less, gained(less, more)),
        silent(world, right, less, gained(less, more)),
        expr_variables(e).difference(binds(right)).disjoint(gained(less, more)),
    ensures
        ({
            let plan = Plan::LeftJoin {
                left: Box::new(left),
                right: Box::new(right),
                expression: e,
                keys,
            };
            &&& follows(world, plan, less, more)
            &&& silent(world, plan, less, gained(less, more))
        }),
{
    let plan = Plan::LeftJoin { left: Box::new(left), right: Box::new(right), expression: e, keys };
    let names = gained(less, more);
    let (l, r) = (eval(world, left, less), eval(world, right, less));
    lemma_eval_extends(world, left, less);
    lemma_eval_extends(world, right, less);
    assert forall|i: int, k: int|
        0 <= i < l.len() && 0 <= k < r.len() && compatible(more, l[i]) && compatible(
            l[i],
            r[k],
        ) implies compatible(more, #[trigger] merge(l[i], r[k])) && holds(
        world,
        e,
        merge(more, merge(l[i], r[k])),
    ) == holds(world, e, merge(l[i], r[k])) by {
        let (s, t) = (l[i], r[k]);
        let x = merge(s, t);
        lemma_contains_index(l, i);
        lemma_contains_index(r, k);
        assert(extends(s, less) && extends(t, less));
        lemma_eval_binds(world, right, less, t);
        lemma_merge_extends(s, t);
        assert(compatible(more, x)) by {
            assert forall|v: Seq<char>| #[trigger]
                more.dom().contains(v) && #[trigger] x.dom().contains(v) implies more[v]
                == x[v] by {
                if !less.dom().contains(v) {
                    assert(names.contains(v));
                    assert(!s.dom().contains(v) && !t.dom().contains(v));
                }
            }
        }
        assert(agree(x, merge(more, x), expr_variables(e))) by {
            assert forall|v: Seq<char>| #[trigger] expr_variables(e).contains(v) implies lookup(
                x,
                v,
            ) == lookup(merge(more, x), v) by {
                if more.dom().contains(v) && !x.dom().contains(v) {
                    assert(names.contains(v));
                    assert(expr_variables(e).difference(binds(right)).contains(v));
                }
            }
        }
        lemma_value_depends(world, e, x, merge(more, x));
    }
    lemma_follow_left_join(
        world,
        more,
        less,
        eval(world, left, more),
        l,
        eval(world, right, more),
        r,
        e,
    );
    assert forall|t: Solution, v: Seq<char>|
        eval(world, plan, less).contains(t) && #[trigger] names.contains(v) implies
        !#[trigger] t.dom().contains(v) by {
        let (s, x) = lemma_left_join_origin(world, left, right, e, less, keys, t);
        assert(!s.dom().contains(v));
        if let Some(y) = x {
            assert(!y.dom().contains(v));
        }
    }
}

/// A plan that ignores the variables that get known gives the join when it is
/// evaluated where they are known, and binds none of them.
#[verifier::spinoff_prover]
#[verifier::rlimit(60)]
pub proof fn lemma_mute(world: World, plan: Plan, types: Types, less: Solution, more: Solution)
    requires
        regular(world),
        distinct_variables(types),
        extends(more, less),
        forall|v: Seq<char>| #[trigger] gained(less, more).contains(v) ==> ignored(plan, types, v),
    ensures
        follows(world, plan, less, more),
        silent(world, plan, less, gained(less, more)),
    decreases plan,
{
    let names = gained(less, more);
    match plan {
        Plan::QuadPattern { .. } | Plan::Path { .. } | Plan::Graph { .. } => {
            assert forall|v: Seq<char>| #[trigger] names.contains(v) implies !plan_variables(
                plan,
            ).contains(v) by {
                let k = unheard(plan, types, v, true);
                lemma_firm(plan, types, v, k);
            }
            lemma_unused_silent(world, plan, less, names);
            lemma_follow_apart(world, plan, less, more);
        },
        Plan::Values { variables, .. } => {
            assert forall|v: Seq<char>| #[trigger] names.contains(v) implies !plan_variables(
                plan,
            ).contains(v) by {
                let k = unheard(plan, types, v, true);
                lemma_firm(plan, types, v, k);
            }
            lemma_unused_silent(world, plan, less, names);
            lemma_follow_apart(world, plan, less, more);
        },
        Plan::Join { left, right, keys } => {
            lemma_odd_within(plan, *left);
            lemma_odd_within(plan, *right);
            assert forall|v: Seq<char>| #[trigger] names.contains(v) implies ignored(
                *left,
                types,
                v,
            ) && ignored(*right, types, v) by {
                let k = unheard(plan, types, v, true);
                lemma_firm(*left, types, v, k);
                lemma_firm(*right, types, v, k);
                lemma_intersect_types(infer(*left, types), infer(*right, types));
            }
            lemma_mute(world, *left, types, less, more);
            lemma_mute(world, *right, types, less, more);
            lemma_follow_join(
                more,
                eval(world, *left, more),
                eval(world, *right, more),
                eval(world, *left, less),
                eval(world, *right, less),
            );
            assert forall|t: Solution, v: Seq<char>|
                eval(world, plan, less).contains(t) && #[trigger] names.contains(v) implies
                !#[trigger] t.dom().contains(v) by {
                let (s, x) = lemma_join_origin(world, *left, *right, less, keys, t);
                assert(!s.dom().contains(v) && !x.dom().contains(v));
            }
        },
        Plan::Lateral { left, right } => {
            let a = infer(*left, types);
            lemma_odd_within(plan, *left);
            lemma_odd_within(plan, *right);
            lemma_infer_distinct(*left, types);
            assert forall|v: Seq<char>| #[trigger] names.contains(v) implies ignored(
                *left,
                types,
                v,
            ) && ignored(*right, a, v) by {
                let k = unheard(plan, types, v, true);
                lemma_firm(*left, types, v, k);
                lemma_firm(*right, a, v, k);
            }
            lemma_mute(world, *left, types, less, more);
            let l = eval(world, *left, less);
            lemma_eval_extends(world, *left, less);
            assert forall|i: int| 0 <= i < l.len() implies compatible(more, #[trigger] l[i])
                && follows(world, *right, l[i], merge(more, l[i])) && silent(
                world,
                *right,
                l[i],
                names,
            ) by {
                let s = l[i];
                lemma_contains_index(l, i);
                assert(extends(s, less));
                assert(compatible(more, s)) by {
                    assert forall|v: Seq<char>| #[trigger]
                        more.dom().contains(v) && #[trigger] s.dom().contains(v) implies more[v]
                        == s[v] by {
                        assert(!names.contains(v));
                    }
                }
                lemma_merge_names(more, less, s);
                let m = merge(more, s);
                assert forall|v: Seq<char>| names.contains(v) implies #[trigger] gained(
                    s,
                    m,
                ).contains(v) by {
                    assert(!s.dom().contains(v));
                }
                assert(gained(s, m) =~= names);
                lemma_mute(world, *right, a, s, m);
            }
            lemma_follow_lateral(world, more, eval(world, *left, more), l, *right);
            assert forall|t: Solution, v: Seq<char>|
                eval(world, plan, less).contains(t) && #[trigger] names.contains(v) implies
                !#[trigger] t.dom().contains(v) by {
                let s = lemma_lateral_origin(world, *left, *right, less, t);
                let i = lemma_find(l, s);
                assert(silent(world, *right, l[i], names));
            }
        },
        Plan::LeftJoin { left, right, expression, keys } => {
            let (a, b) = (infer(*left, types), infer(*right, types));
            lemma_odd_within(plan, *left);
            lemma_odd_within(plan, *right);
            assert forall|v: Seq<char>| #[trigger] names.contains(v) implies ignored(
                *left,
                types,
                v,
            ) && ignored(*right, types, v) by {
                let k = unheard(plan, types, v, true);
                lemma_firm(*left, types, v, k);
                lemma_firm(*right, types, v, k);
                lemma_optional_types(b);
                lemma_intersect_types(a, optional(b));
            }
            lemma_mute(world, *left, types, less, more);
            lemma_mute(world, *right, types, less, more);
            lemma_loose_condition(plan, types, expression, binds(*right), less, more);
            lemma_silent_left_join(world, *left, *right, expression, keys, less, more);
        },
        Plan::Minus { left, right, keys } => {
            lemma_odd_within(plan, *left);
            assert forall|v: Seq<char>| #[trigger] names.contains(v) implies ignored(
                *left,
                types,
                v,
            ) && !plan_variables(*right).contains(v) by {
                let k = unheard(plan, types, v, true);
                lemma_loose_odd(plan, plan_variables(*right), k);
            }
            lemma_mute(world, *left, types, less, more);
            lemma_follow_minus(world, *left, *right, keys, less, more);
            let ok = remains(eval(world, *right, less), less);
            assert forall|t: Solution, v: Seq<char>|
                eval(world, plan, less).contains(t) && #[trigger] names.contains(v) implies
                !#[trigger] t.dom().contains(v) by {
                lemma_keep_contains(eval(world, *left, less), ok, t);
            }
        },
        Plan::Filter { inner, expression } => {
            lemma_odd_within(plan, *inner);
            lemma_mute(world, *inner, types, less, more);
            lemma_loose_condition(plan, types, expression, binds(*inner), less, more);
            let x = eval(world, *inner, less);
            lemma_eval_extends(world, *inner, less);
            assert forall|i: int| 0 <= i < x.len() && compatible(more, #[trigger] x[i]) implies
                holds(world, expression, merge(more, x[i])) == holds(world, expression, x[i]) by {
                lemma_contains_index(x, i);
                assert(extends(x[i], less));
                lemma_condition_silent(world, *inner, expression, less, more, x[i]);
            }
            lemma_follow_filter(world, more, eval(world, *inner, more), x, expression);
            assert forall|t: Solution, v: Seq<char>|
                eval(world, plan, less).contains(t) && #[trigger] names.contains(v) implies
                !#[trigger] t.dom().contains(v) by {
                lemma_keep_contains(x, condition(world, expression), t);
            }
        },
        Plan::Extend { inner, variable, expression } => {
            lemma_odd_within(plan, *inner);
            let a = infer(*inner, types);
            assert forall|v: Seq<char>| #[trigger] names.contains(v) implies ignored(
                *inner,
                types,
                v,
            ) && v != variable by {
                let k = unheard(plan, types, v, true);
                lemma_firm(plan, types, v, k);
                lemma_firm(*inner, types, v, k);
                lemma_infer_distinct(*inner, types);
                lemma_refine_types(a, variable, infer_expr(expression, a));
            }
            lemma_mute(world, *inner, types, less, more);
            lemma_loose_condition(plan, types, expression, binds(*inner), less, more);
            let x = eval(world, *inner, less);
            lemma_eval_extends(world, *inner, less);
            assert forall|i: int| 0 <= i < x.len() && compatible(more, #[trigger] x[i]) implies
                value(world, expression, merge(more, x[i])) == value(world, expression, x[i]) by {
                lemma_contains_index(x, i);
                assert(extends(x[i], less));
                lemma_condition_silent(world, *inner, expression, less, more, x[i]);
            }
            lemma_follow_extend(world, more, eval(world, *inner, more), x, variable, expression);
            assert forall|t: Solution, v: Seq<char>|
                eval(world, plan, less).contains(t) && #[trigger] names.contains(v) implies
                !#[trigger] t.dom().contains(v) by {
                let s = lemma_extend_origin(world, *inner, variable, expression, less, t);
                assert(!s.dom().contains(v));
            }
        },
        Plan::Union { inner } => {
            if inner.len() > 0 {
                assert forall|i: int| 0 <= i < inner.len() implies follows(
                    world,
                    #[trigger] inner[i],
                    less,
                    more,
                ) && silent(world, inner[i], less, names) by {
                    lemma_odd_part(inner, i, false);
                    lemma_odd_part(inner, i, true);
                    assert forall|v: Seq<char>| #[trigger] names.contains(v) implies ignored(
                        inner[i],
                        types,
                        v,
                    ) by {
                        let k = unheard(plan, types, v, true);
                        lemma_firm_union(inner, inner.len() as int, types, v, k);
                        assert(inner.take(inner.len() as int) =~= inner);
                    }
                    lemma_mute(world, inner[i], types, less, more);
                }
            }
            lemma_follow_union(world, inner, less, more);
            assert forall|t: Solution, v: Seq<char>|
                eval(world, plan, less).contains(t) && #[trigger] names.contains(v) implies
                !#[trigger] t.dom().contains(v) by {
                let k = lemma_union_origin(world, inner, less, t);
                assert(silent(world, inner[k], less, names));
            }
        },
        Plan::OrderBy { inner, .. } => {
            lemma_odd_within(plan, *inner);
            lemma_mute(world, *inner, types, less, more);
        },
        Plan::Distinct { inner } | Plan::Reduced { inner } => {
            lemma_odd_within(plan, *inner);
            lemma_mute(world, *inner, types, less, more);
            lemma_silent_once(world, *inner, less, more);
            assert forall|t: Solution, v: Seq<char>|
                eval(world, plan, less).contains(t) && #[trigger] names.contains(v) implies
                !#[trigger] t.dom().contains(v) by {
                lemma_once(eval(world, *inner, less));
            }
        },
        Plan::Slice { .. } | Plan::Project { .. } | Plan::Group { .. } | Plan::Service { .. } => {
            assert forall|v: Seq<char>| #[trigger] names.contains(v) implies !plan_variables(
                plan,
            ).contains(v) by {
                let k = unheard(plan, types, v, true);
                match plan {
                    Plan::Service { .. } => {
                        lemma_loose_odd(plan, Set::full(), k);
                    },
                    Plan::Project { variables, .. } => {
                        lemma_loose_odd(plan, variables.to_set(), k);
                    },
                    _ => {
                        lemma_loose_odd(plan, plan_variables(plan), k);
                    },
                }
            }
            lemma_unused_silent(world, plan, less, names);
            lemma_follow_apart(world, plan, less, more);
        },
    }
}

/// The odd variables of a part are odd in the whole.
proof fn lemma_odd_within(plan: Plan, part: Plan)
    requires
        forall|p: (Trace, bool)| #[trigger]
            plan_paths(part).contains(p) ==> plan_paths(plan).contains(p),
    ensures
        odd_variables(part, false).subset_of(odd_variables(plan, false)),
        odd_variables(part, true).subset_of(odd_variables(plan, true)),
{
}

/// The variables that a condition uses and that need not have a value are loose.
proof fn lemma_loose_condition(
    plan: Plan,
    types: Types,
    e: Expr,
    sure: Names,
    less: Solution,
    more: Solution,
)
    requires
        forall|v: Seq<char>| #[trigger] gained(less, more).contains(v) ==> ignored(plan, types, v),
        all_loose(expr_variables(e).difference(sure)).subset_of(plan_paths(plan)),
    ensures
        expr_variables(e).difference(sure).disjoint(gained(less, more)),
{
    let names = expr_variables(e).difference(sure);
    lemma_loose_odd(plan, names, false);
    lemma_loose_odd(plan, names, true);
    assert forall|v: Seq<char>| #[trigger] names.contains(v) implies !gained(
        less,
        more,
    ).contains(v) by {
        if gained(less, more).contains(v) {
            assert(ignored(plan, types, v));
        }
    }
}

} // verus!
