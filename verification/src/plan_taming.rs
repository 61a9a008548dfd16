//! Building plans keeps the scopes of variables in order.

use vstd::prelude::*;

use crate::algebra::{AggregateExpr, Expr, OrderExpr, Plan, Row};
use crate::builders::{
    all_branches, and_all, branches, distinct, empty, extend, filter, group, is_empty,
    is_empty_singleton, join, known_truth, lateral, left_join, minus, order_by, reduced, slice,
    truth, union_all, values, width, without_singleton_and,
};
use crate::lookups::{
    any_expr_has_subclass_path, any_has_subclass_path, expr_has_subclass_path, has_subclass_path,
};
use crate::scope::{all_bind, all_proper_exprs, binds, full_columns, is_full_column, proper_expr};
use crate::scoping::{
    all_exists_covered, all_expr_paths, all_loose, all_paths, all_plain, all_plain_exprs,
    all_scoped, all_scoped_exprs, all_steady, copied_variables, does_nothing, exists_covered,
    exposed, expr_paths, hidden_variables, hides_nothing, lemma_apart_steady, lemma_covers_more,
    lemma_exists_covered_more, lemma_scoped_expr_more, lemma_scoped_more, lemma_steady_more, plain,
    plain_expr, plan_paths, scoped, scoped_expr, steady, waits, worked, Names, Trace,
};
use crate::semantics::hidden;
use crate::taming::{
    all_tamer, lemma_and_tamer, lemma_part, lemma_part_variables, lemma_tamer_trans,
    lemma_truth_tamer, tamer, tamer_condition, tamer_expr,
};
use crate::type_inference::cell;
use crate::variables::{expr_variables, plan_variables, plans_variables};

verus! {

/// The empty table is tamer than any plan.
pub proof fn lemma_empty_tamer(new: Plan, old: Plan, threshold: nat)
    requires
        new == empty(),
    ensures
        tamer(new, old, threshold),
{
    assert(plan_variables(new) =~= set![]);
    assert forall|v: Seq<char>| binds(old).contains(v) implies binds(new).contains(v) by {
    }
}

pub proof fn lemma_tamer_self(plan: Plan, threshold: nat)
    ensures
        tamer(plan, plan, threshold),
{
}

/// A table with one row, which binds nothing.
pub proof fn lemma_singleton_binds(plan: Plan)
    requires
        is_empty_singleton(plan),
    ensures
        binds(plan) == Set::<Seq<char>>::empty(),
{
    if let Plan::Values { variables, bindings } = plan {
        assert forall|v: Seq<char>| !binds(plan).contains(v) by {
            if binds(plan).contains(v) {
                let c = choose|c: int|
                    0 <= c < variables.len() && #[trigger] variables[c] == v && is_full_column(
                        bindings,
                        c,
                    );
                assert(cell(bindings[0], c) is Some);
            }
        }
        assert(binds(plan) =~= Set::<Seq<char>>::empty());
    }
}

#[verifier::spinoff_prover]
pub proof fn lemma_join_parts(
    left: Plan,
    right: Plan,
    keys: Seq<Seq<char>>,
    old_left: Plan,
    old_right: Plan,
    old_keys: Seq<Seq<char>>,
    threshold: nat,
)
    requires
        tamer(left, old_left, threshold),
        tamer(right, old_right, threshold),
    ensures
        tamer(
            (Plan::Join { left: Box::new(left), right: Box::new(right), keys }),
            (Plan::Join {
                left: Box::new(old_left),
                right: Box::new(old_right),
                keys: old_keys,
            }),
            threshold,
        ),
{
    let new = Plan::Join { left: Box::new(left), right: Box::new(right), keys };
    let old = Plan::Join { left: Box::new(old_left), right: Box::new(old_right), keys: old_keys };
    assert forall|late: Names, sure: Names| steady(old, late, sure) implies
        #[trigger] steady(new, late, sure) by {
        assert(steady(left, late, sure));
        assert(steady(right, late, sure));
    }
    assert forall|sure: Names, outside: Names, late: Names|
        scoped(
            old,
            sure,
            outside,
            late,
            threshold,
        ) implies #[trigger] scoped(new, sure, outside, late, threshold) by {
        let (l, r) = (plan_variables(old_left), plan_variables(old_right));
        assert(scoped(left, sure, outside, late.union(r), threshold));
        assert(scoped(right, sure, outside, late.union(l), threshold));
        lemma_scoped_more(
            left,
            sure,
            outside,
            late.union(r),
            sure,
            outside,
            late.union(plan_variables(right)),
            threshold,
        );
        lemma_scoped_more(
            right,
            sure,
            outside,
            late.union(l),
            sure,
            outside,
            late.union(plan_variables(left)),
            threshold,
        );
    }
}

#[verifier::spinoff_prover]
pub proof fn lemma_lateral_parts(
    left: Plan,
    right: Plan,
    old_left: Plan,
    old_right: Plan,
    threshold: nat,
)
    requires
        tamer(left, old_left, threshold),
        tamer(right, old_right, threshold),
    ensures
        tamer(
            (Plan::Lateral { left: Box::new(left), right: Box::new(right) }),
            (Plan::Lateral { left: Box::new(old_left), right: Box::new(old_right) }),
            threshold,
        ),
{
    let new = Plan::Lateral { left: Box::new(left), right: Box::new(right) };
    let old = Plan::Lateral { left: Box::new(old_left), right: Box::new(old_right) };
    assert forall|late: Names, sure: Names| steady(old, late, sure) implies
        #[trigger] steady(new, late, sure) by {
        assert(steady(left, late, sure));
        let a = sure.union(binds(old_left));
        assert(steady(right, late, a));
        lemma_steady_more(right, late, a, late, sure.union(binds(left)));
    }
    if hides_nothing(old_right) {
        assert forall|v: Seq<char>| !#[trigger] hidden_variables(right).contains(v) by {
            assert(!hidden_variables(old_right).contains(v));
        }
    }
    assert forall|sure: Names, outside: Names, late: Names|
        scoped(
            old,
            sure,
            outside,
            late,
            threshold,
        ) implies #[trigger] scoped(new, sure, outside, late, threshold) by {
        assert(scoped(left, sure, outside, late, threshold));
        let a = sure.union(binds(old_left));
        let d = outside.union(plan_variables(old_left));
        assert(scoped(right, a, d, late, threshold));
        lemma_scoped_more(
            right,
            a,
            d,
            late,
            sure.union(binds(left)),
            outside.union(plan_variables(left)),
            late,
            threshold,
        );
    }
}

#[verifier::spinoff_prover]
#[verifier::rlimit(40)]
pub proof fn lemma_left_join_parts(
    left: Plan,
    right: Plan,
    expression: Expr,
    keys: Seq<Seq<char>>,
    old_left: Plan,
    old_right: Plan,
    old_expression: Expr,
    old_keys: Seq<Seq<char>>,
    threshold: nat,
)
    requires
        tamer(left, old_left, threshold),
        tamer(right, old_right, threshold),
        tamer_condition(expression, old_expression, threshold),
    ensures
        tamer(
            (Plan::LeftJoin {
                left: Box::new(left),
                right: Box::new(right),
                expression,
                keys,
            }),
            (Plan::LeftJoin {
                left: Box::new(old_left),
                right: Box::new(old_right),
                expression: old_expression,
                keys: old_keys,
            }),
            threshold,
        ),
{
    let new = Plan::LeftJoin {
        left: Box::new(left),
        right: Box::new(right),
        expression,
        keys,
    };
    let old = Plan::LeftJoin {
        left: Box::new(old_left),
        right: Box::new(old_right),
        expression: old_expression,
        keys: old_keys,
    };
    let (b, c) = (binds(old_left), binds(old_right));
    let (b2, c2) = (binds(left), binds(right));
    let (l, r) = (plan_variables(old_left), plan_variables(old_right));
    let (l2, r2) = (plan_variables(left), plan_variables(right));
    let (w, w2) = (expr_variables(old_expression), expr_variables(expression));
    assert forall|late: Names, sure: Names| steady(old, late, sure) implies
        #[trigger] steady(new, late, sure) by {
        assert(steady(left, late, sure));
        assert(steady(right, late, sure));
        lemma_covers_more(r, late, sure.union(b), r2, late, sure.union(b2));
        lemma_covers_more(
            w,
            late,
            sure.union(b).union(c),
            w2,
            late,
            sure.union(b2).union(c2),
        );
    }
    assert forall|sure: Names, outside: Names, late: Names|
        scoped(
            old,
            sure,
            outside,
            late,
            threshold,
        ) implies #[trigger] scoped(new, sure, outside, late, threshold) by {
        assert(scoped(left, sure, outside, late, threshold));
        assert(scoped(right, sure, outside.union(late), late.union(l), threshold));
        lemma_scoped_more(
            right,
            sure,
            outside.union(late),
            late.union(l),
            sure,
            outside.union(late),
            late.union(l2),
            threshold,
        );
        if c2 == Set::<Seq<char>>::empty() {
            assert(c =~= Set::<Seq<char>>::empty());
            assert(scoped(left, sure, outside, late.union(r), threshold));
            lemma_scoped_more(
                left,
                sure,
                outside,
                late.union(r),
                sure,
                outside,
                late.union(r2),
                threshold,
            );
        }
        if late != Set::<Seq<char>>::empty() {
            let open = late.difference(sure);
            let (few, few2) = (exposed(old_left, old_right, open), exposed(left, right, open));
            assert(steady(right, few, sure));
            assert(few2.subset_of(few));
            lemma_steady_more(right, few, sure, few2, sure);
            assert(copied_variables(right).subset_of(copied_variables(old_right)));
            assert(waits(left, right, sure, outside, late));
        }
        let (a, a2) = (sure.union(b).union(c), sure.union(b2).union(c2));
        assert(exists_covered(expression, late, a));
        lemma_exists_covered_more(expression, late, a, late, a2);
        let d = outside.union(late).union(l).union(r);
        assert(scoped_expr(expression, a, d, threshold));
        lemma_scoped_expr_more(
            expression,
            a,
            d,
            a2,
            outside.union(late).union(l2).union(r2),
            threshold,
        );
    }
}

pub proof fn lemma_minus_parts(
    left: Plan,
    right: Plan,
    keys: Seq<Seq<char>>,
    old_left: Plan,
    old_right: Plan,
    old_keys: Seq<Seq<char>>,
    threshold: nat,
)
    requires
        tamer(left, old_left, threshold),
        tamer(right, old_right, threshold),
    ensures
        tamer(
            (Plan::Minus { left: Box::new(left), right: Box::new(right), keys }),
            (Plan::Minus {
                left: Box::new(old_left),
                right: Box::new(old_right),
                keys: old_keys,
            }),
            threshold,
        ),
{
    let new = Plan::Minus { left: Box::new(left), right: Box::new(right), keys };
    let old = Plan::Minus { left: Box::new(old_left), right: Box::new(old_right), keys: old_keys };
    assert forall|sure: Names, outside: Names, late: Names|
        scoped(
            old,
            sure,
            outside,
            late,
            threshold,
        ) implies #[trigger] scoped(new, sure, outside, late, threshold) by {
        assert(scoped(left, sure, outside, late, threshold));
        assert(scoped(right, sure, outside, set![], threshold));
    }
    assert forall|late: Names, sure: Names| steady(old, late, sure) implies
        #[trigger] steady(new, late, sure) by {
        assert(steady(left, late, sure));
    }
}

#[verifier::spinoff_prover]
pub proof fn lemma_filter_parts(
    inner: Plan,
    expression: Expr,
    old_inner: Plan,
    old_expression: Expr,
    threshold: nat,
)
    requires
        tamer(inner, old_inner, threshold),
        tamer_condition(expression, old_expression, threshold),
    ensures
        tamer(
            (Plan::Filter { inner: Box::new(inner), expression }),
            (Plan::Filter { inner: Box::new(old_inner), expression: old_expression }),
            threshold,
        ),
{
    let new = Plan::Filter { inner: Box::new(inner), expression };
    let old = Plan::Filter { inner: Box::new(old_inner), expression: old_expression };
    let (b, b2) = (binds(old_inner), binds(inner));
    let (u, u2) = (plan_variables(old_inner), plan_variables(inner));
    let (w, w2) = (expr_variables(old_expression), expr_variables(expression));
    assert forall|late: Names, sure: Names| steady(old, late, sure) implies
        #[trigger] steady(new, late, sure) by {
        assert(steady(inner, late, sure));
        lemma_covers_more(w, late, sure.union(b), w2, late, sure.union(b2));
    }
    assert forall|sure: Names, outside: Names, late: Names|
        scoped(
            old,
            sure,
            outside,
            late,
            threshold,
        ) implies #[trigger] scoped(new, sure, outside, late, threshold) by {
        assert(scoped(inner, sure, outside, late, threshold));
        assert(exists_covered(expression, late, sure.union(b)));
        lemma_exists_covered_more(expression, late, sure.union(b), late, sure.union(b2));
        let d = outside.union(late).union(u);
        assert(scoped_expr(expression, sure.union(b), d, threshold));
        lemma_scoped_expr_more(
            expression,
            sure.union(b),
            d,
            sure.union(b2),
            outside.union(late).union(u2),
            threshold,
        );
        if b2 == Set::<Seq<char>>::empty() {
            assert(b =~= Set::<Seq<char>>::empty());
        }
    }
}

#[verifier::spinoff_prover]
pub proof fn lemma_extend_parts(
    inner: Plan,
    variable: Seq<char>,
    expression: Expr,
    old_inner: Plan,
    old_expression: Expr,
    threshold: nat,
)
    requires
        tamer(inner, old_inner, threshold),
        tamer_expr(expression, old_expression, threshold),
    ensures
        tamer(
            (Plan::Extend { inner: Box::new(inner), variable, expression }),
            (Plan::Extend { inner: Box::new(old_inner), variable, expression: old_expression }),
            threshold,
        ),
{
    let new = Plan::Extend { inner: Box::new(inner), variable, expression };
    let old = Plan::Extend { inner: Box::new(old_inner), variable, expression: old_expression };
    let (b, b2) = (binds(old_inner), binds(inner));
    let (u, u2) = (plan_variables(old_inner), plan_variables(inner));
    let (w, w2) = (expr_variables(old_expression), expr_variables(expression));
    assert forall|late: Names, sure: Names| steady(old, late, sure) implies
        #[trigger] steady(new, late, sure) by {
        assert(steady(inner, late, sure));
        lemma_covers_more(w, late, sure.union(b), w2, late, sure.union(b2));
    }
    assert forall|sure: Names, outside: Names, late: Names|
        scoped(
            old,
            sure,
            outside,
            late,
            threshold,
        ) implies #[trigger] scoped(new, sure, outside, late, threshold) by {
        assert(scoped(inner, sure, outside, late, threshold));
        assert(exists_covered(expression, late, sure.union(b)));
        lemma_exists_covered_more(expression, late, sure.union(b), late, sure.union(b2));
        let d = outside.union(late).union(u);
        assert(scoped_expr(expression, sure.union(b), d, threshold));
        lemma_scoped_expr_more(
            expression,
            sure.union(b),
            d,
            sure.union(b2),
            outside.union(late).union(u2),
            threshold,
        );
    }
}

/// Where every part of a list comes from a part of another.
pub open spec fn drawn_from(new: Seq<Plan>, old: Seq<Plan>, threshold: nat) -> bool {
    forall|k: int| 0 <= k < new.len() ==> has_source(#[trigger] new[k], old, threshold)
}

pub open spec fn has_source(plan: Plan, old: Seq<Plan>, threshold: nat) -> bool {
    exists|i: int| 0 <= i < old.len() && is_branch(plan, #[trigger] old[i], threshold)
}

/// Whether a plan is tamer than a plan, or than a branch of it.
pub open spec fn is_branch(new: Plan, old: Plan, threshold: nat) -> bool {
    tamer(new, old, threshold) || match old {
        Plan::Union { inner } => exists|j: int|
            0 <= j < inner.len() && tamer(new, #[trigger] inner[j], threshold),
        _ => false,
    }
}

pub proof fn lemma_branch(new: Plan, old: Plan, threshold: nat)
    requires
        is_branch(new, old, threshold),
    ensures
        tamer(new, old, threshold),
{
    if !tamer(new, old, threshold) {
        let inner = match old {
            Plan::Union { inner } => inner,
            _ => arbitrary(),
        };
        let j = choose|j: int| 0 <= j < inner.len() && tamer(new, #[trigger] inner[j], threshold);
        assert forall|v: Seq<char>| #[trigger] plan_variables(new).contains(v) implies
            plan_variables(old).contains(v) by {
            assert(plan_variables(inner[j]).contains(v));
            assert(plans_variables(inner).contains(v));
        }
        if has_subclass_path(new) {
            assert(has_subclass_path(inner[j]));
            assert(any_has_subclass_path(inner));
        }
        assert forall|p: (Trace, bool)| #[trigger] plan_paths(new).contains(p) implies plan_paths(
            old,
        ).contains(p) by {
            assert(plan_paths(inner[j]).contains(p));
            assert(all_paths(inner).contains(p));
        }
        if plain(old) {
            assert(all_plain(inner));
            assert(plain(inner[j]));
        }
        assert(binds(old) == all_bind(inner));
        assert forall|v: Seq<char>| #[trigger] binds(old).contains(v) implies binds(new).contains(
            v,
        ) by {
            assert(binds(inner[j]).contains(v));
        }
        assert forall|late: Names, sure: Names| steady(old, late, sure) implies
            #[trigger] steady(new, late, sure) by {
            assert(all_steady(inner, late, sure));
            assert(steady(inner[j], late, sure));
        }
        assert forall|sure: Names, outside: Names, late: Names|
            scoped(old, sure, outside, late, threshold) implies #[trigger] scoped(
            new,
            sure,
            outside,
            late,
            threshold,
        ) by {
            assert(all_scoped(inner, sure, outside, late, threshold));
            assert(scoped(inner[j], sure, outside, late, threshold));
        }
    }
}

/// A union of plans that come from the plans of another union.
pub proof fn lemma_union_drawn(new: Seq<Plan>, old: Seq<Plan>, threshold: nat)
    requires
        drawn_from(new, old, threshold),
        new.len() == 0 ==> old.len() == 0,
    ensures
        tamer((Plan::Union { inner: new }), (Plan::Union { inner: old }), threshold),
{
    let (a, b) = (Plan::Union { inner: new }, Plan::Union { inner: old });
    assert forall|v: Seq<char>| #[trigger] plan_variables(a).contains(v) implies plan_variables(
        b,
    ).contains(v) by {
        assert(plans_variables(new).contains(v));
        let k = choose|k: int|
            0 <= k < new.len() && plan_variables(#[trigger] new[k]).contains(v);
        assert(has_source(new[k], old, threshold));
        let i = choose|i: int| 0 <= i < old.len() && is_branch(
            new[k],
            #[trigger] old[i],
            threshold,
        );
        lemma_branch(new[k], old[i], threshold);
        assert(plan_variables(old[i]).contains(v));
        assert(plans_variables(old).contains(v));
    }
    if has_subclass_path(a) {
        assert(any_has_subclass_path(new));
        let k = choose|k: int| 0 <= k < new.len() && has_subclass_path(#[trigger] new[k]);
        assert(has_source(new[k], old, threshold));
        let i = choose|i: int| 0 <= i < old.len() && is_branch(
            new[k],
            #[trigger] old[i],
            threshold,
        );
        lemma_branch(new[k], old[i], threshold);
        assert(has_subclass_path(old[i]));
        assert(any_has_subclass_path(old));
    }
    assert forall|p: (Trace, bool)| #[trigger] plan_paths(a).contains(p) implies plan_paths(
        b,
    ).contains(p) by {
        if new.len() > 0 {
            assert(all_paths(new).contains(p));
            let k = choose|k: int| 0 <= k < new.len() && plan_paths(#[trigger] new[k]).contains(p);
            assert(has_source(new[k], old, threshold));
            let i = choose|i: int|
                0 <= i < old.len() && is_branch(new[k], #[trigger] old[i], threshold);
            lemma_branch(new[k], old[i], threshold);
            assert(plan_paths(old[i]).contains(p));
            assert(all_paths(old).contains(p));
        } else {
            assert(!all_paths(new).contains(p));
        }
    }
    if plain(b) {
        assert(all_plain(old));
        assert forall|k: int| 0 <= k < new.len() implies plain(#[trigger] new[k]) by {
            assert(has_source(new[k], old, threshold));
            let i = choose|i: int| 0 <= i < old.len() && is_branch(
                new[k],
                #[trigger] old[i],
                threshold,
            );
            lemma_branch(new[k], old[i], threshold);
            assert(plain(old[i]));
        }
        assert(all_plain(new));
    }
    assert(binds(a) == all_bind(new) && binds(b) == all_bind(old));
    assert forall|v: Seq<char>| #[trigger] all_bind(old).contains(v) implies all_bind(
        new,
    ).contains(v) by {
        assert forall|k: int| 0 <= k < new.len() implies binds(#[trigger] new[k]).contains(v) by {
            assert(has_source(new[k], old, threshold));
            let i = choose|i: int| 0 <= i < old.len() && is_branch(
                new[k],
                #[trigger] old[i],
                threshold,
            );
            lemma_branch(new[k], old[i], threshold);
            assert(binds(old[i]).contains(v));
        }
    }
    assert forall|late: Names, sure: Names| steady(b, late, sure) implies
        #[trigger] steady(a, late, sure) by {
        assert(all_steady(old, late, sure));
        assert forall|k: int| 0 <= k < new.len() implies steady(
            #[trigger] new[k],
            late,
            sure,
        ) by {
            assert(has_source(new[k], old, threshold));
            let i = choose|i: int| 0 <= i < old.len() && is_branch(
                new[k],
                #[trigger] old[i],
                threshold,
            );
            lemma_branch(new[k], old[i], threshold);
            assert(steady(old[i], late, sure));
        }
        assert(all_steady(new, late, sure));
    }
    assert forall|sure: Names, outside: Names, late: Names|
        scoped(
            b,
            sure,
            outside,
            late,
            threshold,
        ) implies #[trigger] scoped(a, sure, outside, late, threshold) by {
        assert(all_scoped(old, sure, outside, late, threshold));
        assert forall|k: int| 0 <= k < new.len() implies scoped(
            #[trigger] new[k],
            sure,
            outside,
            late,
            threshold,
        ) by {
            assert(has_source(new[k], old, threshold));
            let i = choose|i: int| 0 <= i < old.len() && is_branch(
                new[k],
                #[trigger] old[i],
                threshold,
            );
            lemma_branch(new[k], old[i], threshold);
            assert(scoped(old[i], sure, outside, late, threshold));
        }
        assert(all_scoped(new, sure, outside, late, threshold));
    }
}

pub proof fn lemma_union_parts(new: Seq<Plan>, old: Seq<Plan>, threshold: nat)
    requires
        all_tamer(new, old, threshold),
    ensures
        tamer((Plan::Union { inner: new }), (Plan::Union { inner: old }), threshold),
{
    assert(drawn_from(new, old, threshold)) by {
        assert forall|k: int| 0 <= k < new.len() implies has_source(#[trigger] new[k], old, threshold) by {
            assert(is_branch(new[k], old[k], threshold));
        }
    }
    lemma_union_drawn(new, old, threshold);
}

/// The operators with one plan that change no scopes.
pub open spec fn is_wrapper(plan: Plan, inner: Plan) -> bool {
    match plan {
        Plan::OrderBy { inner: i, .. }
        | Plan::Slice { inner: i, .. }
        | Plan::Distinct { inner: i }
        | Plan::Reduced { inner: i } => *i == inner,
        _ => false,
    }
}

pub proof fn lemma_wrapper_parts(new: Plan, inner: Plan, old: Plan, old_inner: Plan, threshold: nat)
    requires
        is_wrapper(new, inner),
        is_wrapper(old, old_inner),
        new is OrderBy == old is OrderBy,
        new is Slice == old is Slice,
        does_nothing(new) == does_nothing(old),
        has_subclass_path(new) ==> has_subclass_path(old),
        tamer(inner, old_inner, threshold),
    ensures
        tamer(new, old, threshold),
{
    assert forall|sure: Names, outside: Names, late: Names|
        scoped(
            old,
            sure,
            outside,
            late,
            threshold,
        ) implies #[trigger] scoped(new, sure, outside, late, threshold) by {
        let l = if does_nothing(old) {
            late
        } else {
            set![]
        };
        assert(scoped(inner, sure, outside, l, threshold));
    }
    assert forall|late: Names, sure: Names| steady(old, late, sure) implies
        #[trigger] steady(new, late, sure) by {
        if !(old is Slice) {
            assert(steady(inner, late, sure));
        }
        if !(old is OrderBy || old is Slice) {
            lemma_covers_more(
                plan_variables(old_inner),
                late,
                sure.union(binds(old_inner)),
                plan_variables(inner),
                late,
                sure.union(binds(inner)),
            );
        }
    }
}

pub proof fn lemma_project_parts(
    inner: Plan,
    variables: Seq<Seq<char>>,
    old_inner: Plan,
    threshold: nat,
)
    requires
        tamer(inner, old_inner, threshold),
    ensures
        tamer(
            (Plan::Project { inner: Box::new(inner), variables }),
            (Plan::Project { inner: Box::new(old_inner), variables }),
            threshold,
        ),
{
    let new = Plan::Project { inner: Box::new(inner), variables };
    let old = Plan::Project { inner: Box::new(old_inner), variables };
    assert forall|sure: Names, outside: Names, late: Names|
        scoped(
            old,
            sure,
            outside,
            late,
            threshold,
        ) implies #[trigger] scoped(new, sure, outside, late, threshold) by {
        assert(scoped(inner, sure, outside, set![], threshold));
        assert(hidden(inner, variables).disjoint(outside));
    }
    assert forall|late: Names, sure: Names| steady(old, late, sure) implies
        #[trigger] steady(new, late, sure) by {
        let (a, b) = (hidden(inner, variables), hidden(old_inner, variables));
        let (part, whole) = (late.difference(b), late.difference(a));
        assert(steady(inner, part, sure.difference(b)));
        lemma_steady_more(inner, part, sure.difference(b), whole, sure.difference(a));
    }
}

pub proof fn lemma_group_parts(
    inner: Plan,
    variables: Seq<Seq<char>>,
    aggregates: Seq<(Seq<char>, AggregateExpr)>,
    old_inner: Plan,
    threshold: nat,
)
    requires
        tamer(inner, old_inner, threshold),
    ensures
        tamer(
            (Plan::Group { inner: Box::new(inner), variables, aggregates }),
            (Plan::Group { inner: Box::new(old_inner), variables, aggregates }),
            threshold,
        ),
{
    let new = Plan::Group { inner: Box::new(inner), variables, aggregates };
    let old = Plan::Group { inner: Box::new(old_inner), variables, aggregates };
    assert forall|sure: Names, outside: Names, late: Names|
        scoped(
            old,
            sure,
            outside,
            late,
            threshold,
        ) implies #[trigger] scoped(new, sure, outside, late, threshold) by {
        assert(scoped(inner, sure, outside, set![], threshold));
        assert(hidden(inner, variables).disjoint(outside));
    }
    assert forall|late: Names, sure: Names| steady(old, late, sure) implies
        #[trigger] steady(new, late, sure) by {
        if !plan_variables(old).disjoint(late) {
            let (a, b) = (hidden(inner, variables), hidden(old_inner, variables));
            let (part, whole) = (late.difference(b), late.difference(a));
            assert(steady(inner, part, sure.difference(b)));
            lemma_steady_more(inner, part, sure.difference(b), whole, sure.difference(a));
            lemma_covers_more(
                variables.to_set(),
                late,
                sure.union(binds(old_inner)),
                variables.to_set(),
                late,
                sure.union(binds(inner)),
            );
        }
    }
}

/// A joined plan by itself.
pub proof fn lemma_side_tamer(left: Plan, right: Plan, keys: Seq<Seq<char>>, threshold: nat)
    requires
        is_empty_singleton(left) || is_empty_singleton(right),
    ensures
        ({
            let old = Plan::Join { left: Box::new(left), right: Box::new(right), keys };
            &&& is_empty_singleton(left) ==> tamer(right, old, threshold)
            &&& is_empty_singleton(right) ==> tamer(left, old, threshold)
        }),
{
    let old = Plan::Join { left: Box::new(left), right: Box::new(right), keys };
    assert forall|sure: Names, outside: Names, late: Names|
        scoped(old, sure, outside, late, threshold) implies #[trigger] scoped(
        right,
        sure,
        outside,
        late,
        threshold,
    ) by {
        lemma_scoped_more(
            right,
            sure,
            outside,
            late.union(plan_variables(left)),
            sure,
            outside,
            late,
            threshold,
        );
    }
    assert forall|sure: Names, outside: Names, late: Names|
        scoped(
            old,
            sure,
            outside,
            late,
            threshold,
        ) implies #[trigger] scoped(left, sure, outside, late, threshold) by {
        lemma_scoped_more(
            left,
            sure,
            outside,
            late.union(plan_variables(right)),
            sure,
            outside,
            late,
            threshold,
        );
    }
    if is_empty_singleton(left) {
        lemma_singleton_binds(left);
    }
    if is_empty_singleton(right) {
        lemma_singleton_binds(right);
    }
}

pub proof fn lemma_join_tamer(left: Plan, right: Plan, keys: Seq<Seq<char>>, threshold: nat)
    ensures
        tamer(
            join(left, right, keys),
            (Plan::Join { left: Box::new(left), right: Box::new(right), keys }),
            threshold,
        ),
{
    let old = Plan::Join { left: Box::new(left), right: Box::new(right), keys };
    lemma_empty_tamer(empty(), old, threshold);
    lemma_tamer_self(old, threshold);
    if is_empty_singleton(left) || is_empty_singleton(right) {
        lemma_side_tamer(left, right, keys, threshold);
    }
}

pub proof fn lemma_lateral_tamer(left: Plan, right: Plan, threshold: nat)
    ensures
        tamer(
            lateral(left, right),
            (Plan::Lateral { left: Box::new(left), right: Box::new(right) }),
            threshold,
        ),
{
    let old = Plan::Lateral { left: Box::new(left), right: Box::new(right) };
    lemma_empty_tamer(empty(), old, threshold);
    lemma_tamer_self(old, threshold);
    if is_empty_singleton(left) {
        lemma_singleton_binds(left);
        assert forall|late: Names, sure: Names| steady(old, late, sure) implies
            #[trigger] steady(right, late, sure) by {
            assert(sure.union(binds(left)) =~= sure);
        }
        assert forall|sure: Names, outside: Names, late: Names|
            scoped(old, sure, outside, late, threshold) implies #[trigger] scoped(
            right,
            sure,
            outside,
            late,
            threshold,
        ) by {
            assert(sure.union(binds(left)) =~= sure);
            lemma_scoped_more(
                right,
                sure,
                outside.union(plan_variables(left)),
                late,
                sure,
                outside,
                late,
                threshold,
            );
        }
    }
    if is_empty_singleton(right) {
        lemma_singleton_binds(right);
    }
}

pub proof fn lemma_left_join_tamer(
    left: Plan,
    right: Plan,
    expression: Expr,
    keys: Seq<Seq<char>>,
    threshold: nat,
)
    ensures
        tamer(
            left_join(left, right, expression, keys),
            (Plan::LeftJoin {
                left: Box::new(left),
                right: Box::new(right),
                expression,
                keys,
            }),
            threshold,
        ),
{
    lemma_truth_tamer(true, expression, threshold);
    lemma_tamer_self(left, threshold);
    lemma_tamer_self(right, threshold);
    lemma_left_join_parts(
        left,
        right,
        truth(true),
        keys,
        left,
        right,
        expression,
        keys,
        threshold,
    );
}

pub proof fn lemma_minus_tamer(left: Plan, right: Plan, keys: Seq<Seq<char>>, threshold: nat)
    ensures
        tamer(
            minus(left, right, keys),
            (Plan::Minus { left: Box::new(left), right: Box::new(right), keys }),
            threshold,
        ),
{
    let old = Plan::Minus { left: Box::new(left), right: Box::new(right), keys };
    lemma_empty_tamer(empty(), old, threshold);
}

/// The branches of a flattened union come from its arguments.
proof fn lemma_branches_drawn(plans: Seq<Plan>, threshold: nat)
    ensures
        drawn_from(all_branches(plans), plans, threshold),
    decreases plans.len(),
{
    if plans.len() > 0 {
        let shorter = plans.drop_last();
        let last = plans.last();
        lemma_branches_drawn(shorter, threshold);
        let (a, b) = (all_branches(shorter), branches(last));
        let all = all_branches(plans);
        assert forall|k: int| 0 <= k < all.len() implies has_source(#[trigger] all[k], plans, threshold) by {
            if k < a.len() {
                assert(has_source(a[k], shorter, threshold));
                let i = choose|i: int|
                    0 <= i < shorter.len() && is_branch(a[k], #[trigger] shorter[i], threshold);
                assert(is_branch(all[k], plans[i], threshold));
            } else {
                let j = k - a.len();
                assert(all[k] == b[j]);
                lemma_tamer_self(b[j], threshold);
                assert(is_branch(b[j], plans[plans.len() - 1], threshold));
            }
        }
    }
}

pub proof fn lemma_union_tamer(plans: Seq<Plan>, threshold: nat)
    ensures
        tamer(union_all(plans), (Plan::Union { inner: plans }), threshold),
{
    let old = Plan::Union { inner: plans };
    lemma_empty_tamer(empty(), old, threshold);
    lemma_branches_drawn(plans, threshold);
    if all_branches(plans).len() > 0 {
        lemma_union_drawn(all_branches(plans), plans, threshold);
    }
}

/// A union that is built from plans that are tamer one by one.
pub proof fn lemma_union_all_parts(new: Seq<Plan>, old: Seq<Plan>, threshold: nat)
    requires
        all_tamer(new, old, threshold),
    ensures
        tamer(union_all(new), (Plan::Union { inner: old }), threshold),
{
    lemma_union_tamer(new, threshold);
    lemma_union_parts(new, old, threshold);
    lemma_tamer_trans(
        union_all(new),
        (Plan::Union { inner: new }),
        (Plan::Union { inner: old }),
        threshold,
    );
}

proof fn lemma_plain_tamer(expression: Expr, threshold: nat)
    ensures
        tamer_condition(without_singleton_and(expression), expression, threshold),
{
    if let Expr::And(inner) = expression {
        if inner.len() == 1 {
            assert(inner.contains(inner[0]));
            lemma_part(inner[0], expression, threshold);
            if proper_expr(expression) {
                assert(all_proper_exprs(inner));
                assert(proper_expr(inner[0]));
            }
        }
    }
}

/// A filter on a filter.
#[verifier::spinoff_prover]
proof fn lemma_nested_filter(deeper: Plan, nested: Expr, outer: Expr, threshold: nat)
    ensures
        tamer(
            (Plan::Filter { inner: Box::new(deeper), expression: and_all(seq![outer, nested]) }),
            (Plan::Filter {
                inner: Box::new((Plan::Filter { inner: Box::new(deeper), expression: nested })),
                expression: outer,
            }),
            threshold,
        ),
{
    let parts = seq![outer, nested];
    let both = Expr::And(parts);
    let e = and_all(parts);
    let middle = Plan::Filter { inner: Box::new(deeper), expression: both };
    let inner = Plan::Filter { inner: Box::new(deeper), expression: nested };
    let old = Plan::Filter { inner: Box::new(inner), expression: outer };
    lemma_and_tamer(parts, threshold);
    lemma_tamer_self(deeper, threshold);
    lemma_filter_parts(deeper, e, deeper, both, threshold);
    let (w, x) = (expr_variables(outer), expr_variables(nested));
    assert(expr_variables(both) =~= w.union(x)) by {
        lemma_part_variables(parts, 0);
        lemma_part_variables(parts, 1);
        assert forall|v: Seq<char>| expr_variables(both).contains(v) implies w.union(x).contains(
            v,
        ) by {
            let i = choose|i: int|
                0 <= i < parts.len() && expr_variables(#[trigger] parts[i]).contains(v);
        }
    }
    assert(tamer(middle, old, threshold)) by {
        let b = binds(deeper);
        let u = plan_variables(deeper);
        assert(plan_variables(inner) == x.union(u));
        assert(binds(inner) == b);
        assert(has_subclass_path(inner) == (has_subclass_path(deeper) || expr_has_subclass_path(
            nested,
        )));
        if any_expr_has_subclass_path(parts) {
            let i = choose|i: int|
                0 <= i < parts.len() && expr_has_subclass_path(#[trigger] parts[i]);
            assert(parts[i] == outer || parts[i] == nested);
        }
        assert(plain(inner) == (plain(deeper) && plain_expr(nested)));
        if plain(old) {
            assert(plain_expr(parts[0]) && plain_expr(parts[1]));
            assert(all_plain_exprs(parts));
        }
        assert(plan_paths(inner) == plan_paths(deeper).union(expr_paths(nested)).union(
            all_loose(x.difference(b)),
        ).union(worked()));
        assert(expr_paths(both) == all_expr_paths(parts));
        assert forall|p: (Trace, bool)| #[trigger] all_expr_paths(parts).contains(p) implies expr_paths(
            outer,
        ).contains(p) || expr_paths(nested).contains(p) by {
            let i = choose|i: int|
                0 <= i < parts.len() && expr_paths(#[trigger] parts[i]).contains(p);
            assert(parts[i] == outer || parts[i] == nested);
        }
        assert(plain(middle) == (plain(deeper) && plain_expr(both)));
        assert(plain_expr(both) == all_plain_exprs(parts));
        assert(expr_has_subclass_path(both) == any_expr_has_subclass_path(parts));
        assert forall|late: Names, sure: Names| steady(old, late, sure) implies
            #[trigger] steady(middle, late, sure) by {
            assert(steady(inner, late, sure));
        }
        assert forall|sure: Names, outside: Names, late: Names|
            scoped(old, sure, outside, late, threshold) implies #[trigger] scoped(
            middle,
            sure,
            outside,
            late,
            threshold,
        ) by {
            assert(scoped(inner, sure, outside, late, threshold));
            let none = Set::<Seq<char>>::empty();
            assert(b == none && late != none ==> !expr_has_subclass_path(both));
            let d = outside.union(late).union(u);
            lemma_scoped_expr_more(
                outer,
                sure.union(b),
                outside.union(late).union(plan_variables(inner)),
                sure.union(b),
                d,
                threshold,
            );
            assert(exists_covered(parts[0], late, sure.union(b)));
            assert(exists_covered(parts[1], late, sure.union(b)));
            assert(all_exists_covered(parts, late, sure.union(b)));
            assert(exists_covered(both, late, sure.union(b)));
            assert(scoped_expr(parts[0], sure.union(b), d, threshold));
            assert(scoped_expr(parts[1], sure.union(b), d, threshold));
            assert(all_scoped_exprs(parts, sure.union(b), d, threshold));
            assert(scoped_expr(both, sure.union(b), d, threshold));
        }
    }
    lemma_tamer_trans(
        (Plan::Filter { inner: Box::new(deeper), expression: e }),
        middle,
        old,
        threshold,
    );
}

pub proof fn lemma_filter_tamer(inner: Plan, expression: Expr, threshold: nat)
    ensures
        tamer(
            filter(inner, expression),
            (Plan::Filter { inner: Box::new(inner), expression }),
            threshold,
        ),
{
    let old = Plan::Filter { inner: Box::new(inner), expression };
    let outer = without_singleton_and(expression);
    lemma_empty_tamer(empty(), old, threshold);
    lemma_plain_tamer(expression, threshold);
    lemma_tamer_self(inner, threshold);
    lemma_filter_parts(inner, outer, inner, expression, threshold);
    if !is_empty(inner) && known_truth(outer) is None {
        if let Plan::Filter { expression: nested, inner: deeper } = inner {
            lemma_nested_filter(*deeper, nested, outer, threshold);
            lemma_tamer_trans(
                filter(inner, expression),
                (Plan::Filter { inner: Box::new(inner), expression: outer }),
                old,
                threshold,
            );
        }
    }
}

pub proof fn lemma_wrappers_tamer(
    inner: Plan,
    variable: Seq<char>,
    expression: Expr,
    orders: Seq<OrderExpr>,
    start: usize,
    length: Option<usize>,
    threshold: nat,
)
    ensures
        tamer(
            extend(inner, variable, expression),
            (Plan::Extend { inner: Box::new(inner), variable, expression }),
            threshold,
        ),
        tamer(
            order_by(inner, orders),
            (Plan::OrderBy { inner: Box::new(inner), expression: orders }),
            threshold,
        ),
        tamer(distinct(inner), (Plan::Distinct { inner: Box::new(inner) }), threshold),
        tamer(reduced(inner), (Plan::Reduced { inner: Box::new(inner) }), threshold),
        tamer(
            slice(inner, start, length),
            (Plan::Slice { inner: Box::new(inner), start, length }),
            threshold,
        ),
{
    lemma_empty_tamer(
        empty(),
        (Plan::Extend { inner: Box::new(inner), variable, expression }),
        threshold,
    );
    lemma_empty_tamer(
        empty(),
        (Plan::OrderBy { inner: Box::new(inner), expression: orders }),
        threshold,
    );
    lemma_empty_tamer(empty(), (Plan::Distinct { inner: Box::new(inner) }), threshold);
    lemma_empty_tamer(empty(), (Plan::Reduced { inner: Box::new(inner) }), threshold);
    let cut = Plan::Slice { inner: Box::new(inner), start, length };
    lemma_empty_tamer(empty(), cut, threshold);
    assert forall|late: Names, sure: Names| steady(cut, late, sure) implies #[trigger] steady(
        inner,
        late,
        sure,
    ) by {
        lemma_apart_steady(inner, late, sure);
    }
}

pub proof fn lemma_group_tamer(
    inner: Plan,
    variables: Seq<Seq<char>>,
    aggregates: Seq<(Seq<char>, AggregateExpr)>,
    threshold: nat,
)
    ensures
        tamer(
            group(inner, variables, aggregates),
            (Plan::Group { inner: Box::new(inner), variables, aggregates }),
            threshold,
        ),
{
    lemma_empty_tamer(
        empty(),
        (Plan::Group { inner: Box::new(inner), variables, aggregates }),
        threshold,
    );
}

proof fn lemma_reached(bindings: Seq<Row>, column: int)
    requires
        bindings.len() > 0,
        is_full_column(bindings, column),
        column >= 0,
    ensures
        column < width(bindings),
    decreases bindings.len(),
{
    assert(cell(bindings[bindings.len() - 1], column) is Some);
}

pub proof fn lemma_values_tamer(variables: Seq<Seq<char>>, bindings: Seq<Row>, threshold: nat)
    ensures
        tamer(values(variables, bindings), (Plan::Values { variables, bindings }), threshold),
{
    let columns = width(bindings);
    if columns < variables.len() {
        let fewer = variables.take(columns as int);
        assert forall|v: Seq<char>| fewer.to_set().contains(v) implies variables.to_set().contains(
            v,
        ) by {
            let i = choose|i: int| 0 <= i < fewer.len() && fewer[i] == v;
            assert(variables[i] == v);
        }
        assert forall|v: Seq<char>| full_columns(variables, bindings).contains(v) implies
            full_columns(fewer, bindings).contains(v) by {
            if bindings.len() > 0 {
                let c = choose|c: int|
                    0 <= c < variables.len() && #[trigger] variables[c] == v && is_full_column(
                        bindings,
                        c,
                    );
                lemma_reached(bindings, c);
                assert(fewer[c] == v);
            }
        }
    }
}

} // verus!
