//! Normalization keeps the solutions of a plan.

use vstd::prelude::*;

use crate::algebra::{Expr, OrderExpr, Plan};
use crate::arrange::{arranged, in_order, lemma_in_order};
use crate::bags::{lemma_gather_order, lemma_keep_none, lemma_once_order, lemma_same_items, same};
use crate::builders::{empty, extend, filter, truth, union_all, values};
use crate::congruence::{
    lemma_extend_same, lemma_filter_same, lemma_group_same, lemma_lateral_same,
    lemma_left_join_same, lemma_minus_same, lemma_project_same, lemma_union_same,
    lemma_without_same,
};
use crate::eval_basics::{lemma_contains_index, lemma_eval_within, lemma_find, within};
use crate::expr_laws::{
    lemma_and_all, lemma_equal, lemma_if, lemma_known, lemma_not, lemma_or_all, lemma_same_term,
};
use crate::factoring::{
    lemma_factor_common, lemma_factor_common_tamer, lemma_factor_names, lemma_factors_scoped,
    lemma_factors_steady, lemma_joined_tamed,
};
use crate::factors::join_factors;
use crate::joins::{lemma_join_factors, lemma_joined};
use crate::lookups::{any_order_has_subclass_path, order_has_subclass_path};
use crate::normalize::{
    normalize, normalize_all, normalize_expr, normalize_exprs, normalize_order, normalize_orders,
    typed_equal,
};
use crate::origins::lemma_joined_origin;
use crate::plan_laws::{
    lemma_distinct, lemma_empty, lemma_exists, lemma_extend, lemma_filter, lemma_gather_items,
    lemma_group, lemma_lateral, lemma_left_join, lemma_minus, lemma_order_by, lemma_slice,
    lemma_union_all, lemma_values,
};
use crate::plan_taming::{
    lemma_empty_tamer, lemma_extend_parts, lemma_filter_parts, lemma_filter_tamer,
    lemma_group_parts, lemma_group_tamer, lemma_join_parts, lemma_lateral_parts,
    lemma_lateral_tamer, lemma_left_join_parts, lemma_left_join_tamer, lemma_minus_parts,
    lemma_minus_tamer, lemma_project_parts, lemma_tamer_self, lemma_union_all_parts,
    lemma_values_tamer, lemma_wrapper_parts, lemma_wrappers_tamer,
};
use crate::rewriting::{lemma_eval_join_bag, lemma_list_bag, lemma_list_trans, lemma_one_tamed};
use crate::scope::{all_proper_exprs, binds, hygienic, never_nan, proper_expr};
use crate::scoping::{
    all_scoped, all_scoped_exprs, does_nothing, lemma_right_scoped, lemma_scoped_hygienic, scoped,
    scoped_expr, steady, Names,
};
use crate::semantics::{
    allowed, condition, eval, extended, extender, has_types, hidden, holds, of_type, regular,
    truths, value, World,
};
use crate::solutions::{
    joined_bags, joined_with, lemma_join_same, lemma_merge_extends, lookup, merged, Solution,
};
use crate::taming::{
    all_tamer, all_tamer_exprs, lemma_and_tamer, lemma_call_tamer, lemma_equal_tamer,
    lemma_exists_tamer, lemma_if_tamer, lemma_list_tamer, lemma_not_tamer, lemma_or_tamer,
    lemma_parts_tamer, lemma_tamer_expr_trans, lemma_tamer_trans, lemma_truth_tamer, parts_tamer,
    tamer, tamer_expr,
};
use crate::type_inference::{
    distinct_variables, infer, infer_expr, intersect, type_of, Types, VariableType,
};
use crate::type_laws::{lemma_infer_distinct, lemma_intersect_types};
use crate::typing::{law_types_are_sound, lemma_expr_typed, lemma_typed_merge};
use crate::variables::plan_variables;

verus! {

/// The operands of two plans, in order, are as tame as the join of both.
proof fn lemma_arranged_tamer(left: Plan, right: Plan, keys: Seq<Seq<char>>, threshold: nat)
    ensures
        tamer(
            arranged(join_factors(left) + join_factors(right)),
            (Plan::Join { left: Box::new(left), right: Box::new(right), keys }),
            threshold,
        ),
{
    let raw = Plan::Join { left: Box::new(left), right: Box::new(right), keys };
    let fs = join_factors(raw);
    let (ordered, new) = (in_order(fs), arranged(fs));
    lemma_in_order(fs);
    lemma_list_bag(ordered, fs, threshold);
    lemma_joined_tamed(ordered, threshold);
    lemma_one_tamed(new, ordered, threshold);
    lemma_list_trans(seq![new], ordered, fs, threshold);
    lemma_one_tamed(new, fs, threshold);
    lemma_factor_names(raw);
    assert forall|late: Names, sure: Names| steady(raw, late, sure) implies
        #[trigger] steady(new, late, sure) by {
        lemma_factors_steady(raw, late, sure);
    }
    assert forall|sure: Names, outside: Names, late: Names|
        scoped(
            raw,
            sure,
            outside,
            late,
            threshold,
        ) implies #[trigger] scoped(new, sure, outside, late, threshold) by {
        lemma_factors_scoped(raw, sure, outside, late, threshold);
    }
}

/// The operands of two plans, in order, have the solutions of the join of both.
proof fn lemma_arranged_eval(
    world: World,
    left: Plan,
    right: Plan,
    keys: Seq<Seq<char>>,
    input: Solution,
)
    requires
        regular(world),
    ensures
        same(
            eval(world, arranged(join_factors(left) + join_factors(right)), input),
            joined_bags(eval(world, left, input), eval(world, right, input)),
        ),
{
    let raw = Plan::Join { left: Box::new(left), right: Box::new(right), keys };
    let fs = join_factors(raw);
    lemma_in_order(fs);
    lemma_joined(world, in_order(fs), input);
    lemma_eval_join_bag(world, in_order(fs), fs, input);
    lemma_join_factors(world, raw, input);
}

/// Normalization keeps the scopes in order.
#[verifier::spinoff_prover]
#[verifier::rlimit(40)]
pub proof fn lemma_normalize_tamer(plan: Plan, types: Types, threshold: nat)
    ensures
        tamer(normalize(plan, types), plan, threshold),
    decreases plan,
{
    let new = normalize(plan, types);
    match plan {
        Plan::QuadPattern { .. } | Plan::Path { .. } | Plan::Graph { .. } | Plan::Service { .. } => {
            lemma_tamer_self(plan, threshold);
        },
        Plan::Values { variables, bindings } => {
            lemma_values_tamer(variables, bindings, threshold);
        },
        Plan::Join { left, right, keys } => {
            let (l, r) = (normalize(*left, types), normalize(*right, types));
            lemma_normalize_tamer(*left, types, threshold);
            lemma_normalize_tamer(*right, types, threshold);
            lemma_join_parts(l, r, keys, *left, *right, keys, threshold);
            lemma_arranged_tamer(l, r, keys, threshold);
            lemma_tamer_trans(
                new,
                (Plan::Join { left: Box::new(l), right: Box::new(r), keys }),
                plan,
                threshold,
            );
        },
        Plan::LeftJoin { left, right, expression, keys } => {
            let (l, r) = (normalize(*left, types), normalize(*right, types));
            let inner_types = intersect(infer(l, types), infer(r, types));
            let e = normalize_expr(expression, inner_types);
            lemma_normalize_tamer(*left, types, threshold);
            lemma_normalize_tamer(*right, types, threshold);
            lemma_normalize_expr_tamer(expression, inner_types, threshold);
            lemma_left_join_parts(l, r, e, keys, *left, *right, expression, keys, threshold);
            lemma_left_join_tamer(l, r, e, keys, threshold);
            lemma_tamer_trans(
                new,
                (Plan::LeftJoin { left: Box::new(l), right: Box::new(r), expression: e, keys }),
                plan,
                threshold,
            );
        },
        Plan::Lateral { left, right } => {
            let l = normalize(*left, types);
            let r = normalize(*right, infer(l, types));
            lemma_normalize_tamer(*left, types, threshold);
            lemma_normalize_tamer(*right, infer(l, types), threshold);
            lemma_lateral_parts(l, r, *left, *right, threshold);
            lemma_lateral_tamer(l, r, threshold);
            lemma_tamer_trans(
                new,
                (Plan::Lateral { left: Box::new(l), right: Box::new(r) }),
                plan,
                threshold,
            );
        },
        Plan::Filter { inner, expression } => {
            let i = normalize(*inner, types);
            let t = infer(i, types);
            let e = normalize_expr(expression, t);
            lemma_normalize_tamer(*inner, types, threshold);
            lemma_normalize_expr_tamer(expression, t, threshold);
            lemma_empty_tamer(empty(), plan, threshold);
            lemma_filter_parts(i, e, *inner, expression, threshold);
            lemma_filter_tamer(i, e, threshold);
            lemma_tamer_trans(
                filter(i, e),
                (Plan::Filter { inner: Box::new(i), expression: e }),
                plan,
                threshold,
            );
        },
        Plan::Union { inner } => {
            let all = normalize_all(inner, types);
            assert forall|k: int| 0 <= k < all.len() implies tamer(#[trigger] all[k], inner[k], threshold) by {
                lemma_normalize_tamer(inner[k], types, threshold);
            }
            assert(all_tamer(all, inner, threshold));
            lemma_union_all_parts(all, inner, threshold);
            match union_all(all) {
                Plan::Union { inner: branches } => {
                    lemma_factor_common_tamer(branches, threshold);
                    lemma_tamer_trans(new, union_all(all), plan, threshold);
                },
                _ => {},
            }
        },
        Plan::Extend { inner, variable, expression } => {
            let i = normalize(*inner, types);
            let t = infer(i, types);
            let e = normalize_expr(expression, t);
            lemma_normalize_tamer(*inner, types, threshold);
            lemma_normalize_expr_tamer(expression, t, threshold);
            lemma_inner_tamer(i, *inner, variable, expression, threshold);
            lemma_extend_parts(i, variable, e, *inner, expression, threshold);
            lemma_wrappers_tamer(i, variable, e, seq![], 0, None, threshold);
            lemma_tamer_trans(
                extend(i, variable, e),
                (Plan::Extend { inner: Box::new(i), variable, expression: e }),
                plan,
                threshold,
            );
        },
        Plan::Minus { left, right, keys } => {
            let (l, r) = (normalize(*left, types), normalize(*right, types));
            lemma_normalize_tamer(*left, types, threshold);
            lemma_normalize_tamer(*right, types, threshold);
            lemma_minus_parts(l, r, keys, *left, *right, keys, threshold);
            lemma_minus_tamer(l, r, keys, threshold);
            lemma_tamer_trans(
                new,
                (Plan::Minus { left: Box::new(l), right: Box::new(r), keys }),
                plan,
                threshold,
            );
        },
        Plan::OrderBy { inner, expression } => {
            let i = normalize(*inner, types);
            let orders = normalize_orders(expression, infer(i, types));
            lemma_normalize_tamer(*inner, types, threshold);
            let raw = Plan::OrderBy { inner: Box::new(i), expression: orders };
            lemma_orders_path(expression, infer(i, types), threshold);
            lemma_wrappers_tamer(i, seq![], truth(true), orders, 0, None, threshold);
            lemma_wrapper_parts(raw, i, plan, *inner, threshold);
            lemma_tamer_trans(new, raw, plan, threshold);
        },
        Plan::Project { inner, variables } => {
            lemma_normalize_tamer(*inner, types, threshold);
            lemma_project_parts(normalize(*inner, types), variables, *inner, threshold);
        },
        Plan::Distinct { inner } => {
            let i = normalize(*inner, types);
            lemma_normalize_tamer(*inner, types, threshold);
            let raw = Plan::Distinct { inner: Box::new(i) };
            lemma_wrappers_tamer(i, seq![], truth(true), seq![], 0, None, threshold);
            lemma_wrapper_parts(raw, i, plan, *inner, threshold);
            lemma_tamer_trans(new, raw, plan, threshold);
        },
        Plan::Reduced { inner } => {
            let i = normalize(*inner, types);
            lemma_normalize_tamer(*inner, types, threshold);
            let raw = Plan::Reduced { inner: Box::new(i) };
            lemma_wrappers_tamer(i, seq![], truth(true), seq![], 0, None, threshold);
            lemma_wrapper_parts(raw, i, plan, *inner, threshold);
            lemma_tamer_trans(new, raw, plan, threshold);
        },
        Plan::Slice { inner, start, length } => {
            let i = normalize(*inner, types);
            lemma_normalize_tamer(*inner, types, threshold);
            let raw = Plan::Slice { inner: Box::new(i), start, length };
            lemma_wrappers_tamer(i, seq![], truth(true), seq![], start, length, threshold);
            lemma_wrapper_parts(raw, i, plan, *inner, threshold);
            lemma_tamer_trans(new, raw, plan, threshold);
        },
        Plan::Group { inner, variables, aggregates } => {
            let i = normalize(*inner, types);
            lemma_normalize_tamer(*inner, types, threshold);
            lemma_group_parts(i, variables, aggregates, *inner, threshold);
            lemma_group_tamer(i, variables, aggregates, threshold);
            lemma_tamer_trans(
                new,
                (Plan::Group { inner: Box::new(i), variables, aggregates }),
                plan,
                threshold,
            );
        },
    }
}

proof fn lemma_orders_path(criteria: Seq<OrderExpr>, types: Types, threshold: nat)
    ensures
        any_order_has_subclass_path(normalize_orders(criteria, types))
            ==> any_order_has_subclass_path(criteria),
    decreases criteria,
{
    let orders = normalize_orders(criteria, types);
    if any_order_has_subclass_path(orders) {
        let k = choose|k: int|
            0 <= k < orders.len() && order_has_subclass_path(#[trigger] orders[k]);
        assert(orders[k] == normalize_order(criteria[k], types));
        lemma_order_path(criteria[k], types, threshold);
        assert(order_has_subclass_path(criteria[k]));
    }
}

proof fn lemma_order_path(criterion: OrderExpr, types: Types, threshold: nat)
    ensures
        order_has_subclass_path(normalize_order(criterion, types)) ==> order_has_subclass_path(
            criterion,
        ),
    decreases criterion,
{
    match criterion {
        OrderExpr::Asc(e) | OrderExpr::Desc(e) => {
            lemma_normalize_expr_tamer(e, types, threshold);
        },
    }
}

/// An extension without the extension.
proof fn lemma_inner_tamer(
    new: Plan,
    inner: Plan,
    variable: Seq<char>,
    expression: Expr,
    threshold: nat,
)
    requires
        tamer(new, inner, threshold),
    ensures
        tamer(new, (Plan::Extend { inner: Box::new(inner), variable, expression }), threshold),
{
    let old = Plan::Extend { inner: Box::new(inner), variable, expression };
    assert(tamer(inner, old, threshold));
    lemma_tamer_trans(new, inner, old, threshold);
}

#[verifier::spinoff_prover]
#[verifier::rlimit(40)]
pub proof fn lemma_normalize_expr_tamer(expression: Expr, types: Types, threshold: nat)
    ensures
        tamer_expr(normalize_expr(expression, types), expression, threshold),
    decreases expression,
{
    let new = normalize_expr(expression, types);
    match expression {
        Expr::NamedNode(_) | Expr::Literal(_) | Expr::Variable(_) => {},
        Expr::Or(inner)
        | Expr::And(inner)
        | Expr::Coalesce(inner)
        | Expr::FunctionCall(_, inner) => {
            let all = normalize_exprs(inner, types);
            assert forall|i: int| 0 <= i < all.len() implies tamer_expr(
                #[trigger] all[i],
                inner[i],
                threshold,
            ) by {
                lemma_normalize_expr_tamer(inner[i], types, threshold);
            }
            assert(all_tamer_exprs(all, inner, threshold));
            lemma_list_tamer(all, inner, threshold);
            match expression {
                Expr::Or(_) => {
                    lemma_or_tamer(all, threshold);
                    lemma_tamer_expr_trans(new, Expr::Or(all), expression, threshold);
                },
                Expr::And(_) => {
                    lemma_and_tamer(all, threshold);
                    lemma_tamer_expr_trans(new, Expr::And(all), expression, threshold);
                },
                Expr::FunctionCall(name, _) => {
                    lemma_call_tamer(name, all, inner, threshold);
                },
                _ => {},
            }
        },
        Expr::Equal(left, right) => {
            let (l, r) = (normalize_expr(*left, types), normalize_expr(*right, types));
            lemma_normalize_expr_tamer(*left, types, threshold);
            lemma_normalize_expr_tamer(*right, types, threshold);
            lemma_equal_tamer(l, r, threshold);
            let raw = Expr::Equal(Box::new(l), Box::new(r));
            assert(parts_tamer(raw, expression, threshold));
            lemma_parts_tamer(raw, expression, threshold);
            lemma_tamer_expr_trans(new, raw, expression, threshold);
        },
        Expr::SameTerm(left, right) => {
            let (l, r) = (normalize_expr(*left, types), normalize_expr(*right, types));
            lemma_normalize_expr_tamer(*left, types, threshold);
            lemma_normalize_expr_tamer(*right, types, threshold);
            lemma_equal_tamer(l, r, threshold);
            let raw = Expr::SameTerm(Box::new(l), Box::new(r));
            assert(parts_tamer(raw, expression, threshold));
            lemma_parts_tamer(raw, expression, threshold);
            lemma_tamer_expr_trans(new, raw, expression, threshold);
        },
        Expr::Greater(left, right)
        | Expr::GreaterOrEqual(left, right)
        | Expr::Less(left, right)
        | Expr::LessOrEqual(left, right)
        | Expr::Add(left, right)
        | Expr::Subtract(left, right)
        | Expr::Multiply(left, right)
        | Expr::Divide(left, right) => {
            lemma_normalize_expr_tamer(*left, types, threshold);
            lemma_normalize_expr_tamer(*right, types, threshold);
            assert(parts_tamer(new, expression, threshold));
            lemma_parts_tamer(new, expression, threshold);
        },
        Expr::UnaryPlus(inner) | Expr::UnaryMinus(inner) => {
            lemma_normalize_expr_tamer(*inner, types, threshold);
            assert(parts_tamer(new, expression, threshold));
            lemma_parts_tamer(new, expression, threshold);
        },
        Expr::Not(inner) => {
            let i = normalize_expr(*inner, types);
            lemma_normalize_expr_tamer(*inner, types, threshold);
            let raw = Expr::Not(Box::new(i));
            assert(parts_tamer(raw, expression, threshold));
            lemma_parts_tamer(raw, expression, threshold);
            lemma_not_tamer(i, threshold);
            lemma_tamer_expr_trans(new, raw, expression, threshold);
        },
        Expr::Exists(inner) => {
            let i = normalize(*inner, types);
            lemma_normalize_tamer(*inner, types, threshold);
            let raw = Expr::Exists(Box::new(i));
            assert(parts_tamer(raw, expression, threshold));
            lemma_parts_tamer(raw, expression, threshold);
            lemma_exists_tamer(i, threshold);
            lemma_tamer_expr_trans(new, raw, expression, threshold);
        },
        Expr::Bound(variable) => {
            lemma_truth_tamer(true, expression, threshold);
            lemma_truth_tamer(false, expression, threshold);
        },
        Expr::If(condition, then_case, else_case) => {
            let (a, b, c) = (
                normalize_expr(*condition, types),
                normalize_expr(*then_case, types),
                normalize_expr(*else_case, types),
            );
            lemma_normalize_expr_tamer(*condition, types, threshold);
            lemma_normalize_expr_tamer(*then_case, types, threshold);
            lemma_normalize_expr_tamer(*else_case, types, threshold);
            let raw = Expr::If(Box::new(a), Box::new(b), Box::new(c));
            assert(parts_tamer(raw, expression, threshold));
            lemma_parts_tamer(raw, expression, threshold);
            lemma_if_tamer(a, b, c, threshold);
            lemma_tamer_expr_trans(new, raw, expression, threshold);
        },
    }
}

/// An input whose variables have values of given types, among given variables.
pub open spec fn placed(input: Solution, types: Types, outside: Names) -> bool {
    &&& distinct_variables(types)
    &&& has_types(input, types)
    &&& input.dom().subset_of(outside)
}

/// The solutions of a plan have the inferred types.
pub proof fn lemma_solution_placed(
    world: World,
    plan: Plan,
    input: Solution,
    types: Types,
    outside: Names,
    s: Solution,
)
    requires
        regular(world),
        placed(input, types, outside),
        hygienic(plan, outside),
        eval(world, plan, input).contains(s),
    ensures
        placed(s, infer(plan, types), outside.union(plan_variables(plan))),
{
    law_types_are_sound(world, plan, input, types, outside, s);
    lemma_infer_distinct(plan, types);
    lemma_eval_within(world, plan, input);
    let k = lemma_find(eval(world, plan, input), s);
    assert(within(s, input, plan_variables(plan)));
}

/// Joined solutions of two plans have the types of both.
pub proof fn lemma_joined_placed(
    world: World,
    left: Plan,
    right: Plan,
    input: Solution,
    types: Types,
    outside: Names,
    s: Solution,
    x: Solution,
)
    requires
        regular(world),
        placed(input, types, outside),
        hygienic(left, outside),
        hygienic(right, outside),
        eval(world, left, input).contains(s),
        joined_with(s, eval(world, right, input)).contains(x),
    ensures
        placed(
            x,
            intersect(infer(left, types), infer(right, types)),
            outside.union(plan_variables(left)).union(plan_variables(right)),
        ),
{
    let r = eval(world, right, input);
    let k = lemma_joined_origin(s, r, x);
    lemma_contains_index(r, k);
    lemma_solution_placed(world, left, input, types, outside, s);
    lemma_solution_placed(world, right, input, types, outside, r[k]);
    let none = Set::<Seq<char>>::empty();
    let (a, b) = (infer(left, types), infer(right, types));
    lemma_typed_merge(s, r[k], a, b, none, none);
    assert(none.intersect(none) =~= none);
    lemma_intersect_types(a, b);
    lemma_merge_extends(s, r[k]);
}

/// Normalization keeps the solutions.
#[verifier::spinoff_prover]
#[verifier::rlimit(60)]
pub proof fn lemma_normalize(
    world: World,
    plan: Plan,
    types: Types,
    input: Solution,
    sure: Names,
    outside: Names,
    late: Names,
    threshold: nat,
)
    requires
        regular(world),
        placed(input, types, outside),
        scoped(plan, sure, outside, late, threshold),
    ensures
        same(eval(world, normalize(plan, types), input), eval(world, plan, input)),
    decreases plan, 1nat,
{
    match plan {
        Plan::QuadPattern { .. } | Plan::Path { .. } | Plan::Graph { .. } | Plan::Service { .. } => {
        },
        Plan::Values { variables, bindings } => {
            lemma_values(world, variables, bindings, input);
        },
        Plan::Join { left, right, keys } => {
            let (a, b) = (plan_variables(*left), plan_variables(*right));
            lemma_normalize(world, *left, types, input, sure, outside, late.union(b), threshold);
            lemma_normalize(world, *right, types, input, sure, outside, late.union(a), threshold);
            let (l, r) = (normalize(*left, types), normalize(*right, types));
            lemma_arranged_eval(world, l, r, keys, input);
            lemma_join_same(
                eval(world, l, input),
                eval(world, r, input),
                eval(world, *left, input),
                eval(world, *right, input),
            );
        },
        Plan::LeftJoin { left, right, expression, keys } => {
            let a = plan_variables(*left);
            lemma_right_scoped(*left, *right, expression, keys, sure, outside, late, threshold);
            lemma_normalize(world, *left, types, input, sure, outside, late, threshold);
            lemma_normalize(world, *right, types, input, sure, outside, late.union(a), threshold);
            lemma_normalize_left_join(
                world,
                *left,
                *right,
                expression,
                keys,
                types,
                input,
                sure,
                outside,
                late,
                threshold,
            );
        },
        Plan::Lateral { left, right } => {
            let l = normalize(*left, types);
            let t = infer(l, types);
            let r = normalize(*right, t);
            lemma_normalize(world, *left, types, input, sure, outside, late, threshold);
            lemma_normalize_tamer(*left, types, threshold);
            assert(scoped(l, sure, outside, late, threshold));
            lemma_scoped_hygienic(l, sure, outside, late, threshold);
            let (x, y) = (eval(world, l, input), eval(world, *left, input));
            lemma_same_items(x, y);
            let wide = outside.union(plan_variables(*left));
            assert forall|s: Solution| #[trigger] y.contains(s) implies same(
                eval(world, r, s),
                eval(world, *right, s),
            ) by {
                assert(x.contains(s));
                lemma_solution_placed(world, l, input, types, outside, s);
                assert(placed(s, t, wide));
                lemma_normalize(
                    world,
                    *right,
                    t,
                    s,
                    sure.union(binds(*left)),
                    wide,
                    late,
                    threshold,
                );
            }
            lemma_lateral_same(world, x, y, r, *right);
            lemma_lateral(world, l, r, input);
        },
        Plan::Filter { inner, expression } => {
            lemma_normalize(world, *inner, types, input, sure, outside, late, threshold);
            lemma_normalize_filter(
                world,
                *inner,
                expression,
                types,
                input,
                sure,
                outside,
                late,
                threshold,
            );
        },
        Plan::Union { inner } => {
            let all = normalize_all(inner, types);
            assert(all_scoped(inner, sure, outside, late, threshold));
            assert forall|k: int| 0 <= k < all.len() implies same(
                eval(world, #[trigger] all[k], input),
                eval(world, inner[k], input),
            ) by {
                lemma_normalize(world, inner[k], types, input, sure, outside, late, threshold);
            }
            lemma_union_same(world, all, inner, input);
            lemma_union_all(world, all, input);
            match union_all(all) {
                Plan::Union { inner: branches } => {
                    lemma_factor_common(world, branches, input);
                },
                _ => {},
            }
        },
        Plan::Extend { inner, variable, expression } => {
            lemma_normalize(world, *inner, types, input, sure, outside, late, threshold);
            lemma_normalize_extend(
                world,
                *inner,
                variable,
                expression,
                types,
                input,
                sure,
                outside,
                late,
                threshold,
            );
        },
        Plan::Minus { left, right, keys } => {
            lemma_normalize(world, *left, types, input, sure, outside, late, threshold);
            lemma_normalize(world, *right, types, input, sure, outside, set![], threshold);
            let (l, r) = (normalize(*left, types), normalize(*right, types));
            lemma_minus(world, l, r, keys, input);
            lemma_minus_same(
                eval(world, l, input),
                eval(world, *left, input),
                eval(world, r, input),
                eval(world, *right, input),
                input,
            );
        },
        Plan::OrderBy { inner, expression } => {
            let seen = if does_nothing(plan) {
                late
            } else {
                set![]
            };
            lemma_normalize(world, *inner, types, input, sure, outside, seen, threshold);
            let i = normalize(*inner, types);
            lemma_order_by(world, i, normalize_orders(expression, infer(i, types)), input);
        },
        Plan::Project { inner, variables } => {
            lemma_normalize(world, *inner, types, input, sure, outside, set![], threshold);
            let i = normalize(*inner, types);
            lemma_normalize_tamer(*inner, types, threshold);
            lemma_hidden_less(i, *inner, variables, outside, input);
            lemma_project_same(world, i, *inner, variables, input);
        },
        Plan::Distinct { inner } | Plan::Reduced { inner } => {
            lemma_normalize(world, *inner, types, input, sure, outside, set![], threshold);
            let i = normalize(*inner, types);
            lemma_distinct(world, i, input);
            lemma_once_order(eval(world, i, input), eval(world, *inner, input));
        },
        Plan::Slice { inner, start, length } => {
            let seen = if does_nothing(plan) {
                late
            } else {
                set![]
            };
            lemma_normalize(world, *inner, types, input, sure, outside, seen, threshold);
            let i = normalize(*inner, types);
            lemma_slice(world, i, start, length, input);
            lemma_without_same(eval(world, i, input), eval(world, *inner, input), input.dom());
        },
        Plan::Group { inner, variables, aggregates } => {
            lemma_normalize(world, *inner, types, input, sure, outside, set![], threshold);
            let i = normalize(*inner, types);
            lemma_normalize_tamer(*inner, types, threshold);
            lemma_hidden_less(i, *inner, variables, outside, input);
            lemma_group(world, i, variables, aggregates, input);
            lemma_group_same(world, i, *inner, variables, aggregates, input);
        },
    }
}

/// A plan that uses fewer variables hides fewer.
pub proof fn lemma_hidden_less(
    new: Plan,
    old: Plan,
    variables: Seq<Seq<char>>,
    outside: Names,
    input: Solution,
)
    requires
        plan_variables(new).subset_of(plan_variables(old)),
        hidden(old, variables).disjoint(outside),
        input.dom().subset_of(outside),
    ensures
        hidden(new, variables).disjoint(input.dom()),
        hidden(old, variables).disjoint(input.dom()),
{
}

#[verifier::spinoff_prover]
proof fn lemma_normalize_left_join(
    world: World,
    left: Plan,
    right: Plan,
    expression: Expr,
    keys: Seq<Seq<char>>,
    types: Types,
    input: Solution,
    sure: Names,
    outside: Names,
    late: Names,
    threshold: nat,
)
    requires
        regular(world),
        placed(input, types, outside),
        scoped(
            (Plan::LeftJoin {
                left: Box::new(left),
                right: Box::new(right),
                expression,
                keys,
            }),
            sure,
            outside,
            late,
            threshold,
        ),
        same(eval(world, normalize(left, types), input), eval(world, left, input)),
        same(eval(world, normalize(right, types), input), eval(world, right, input)),
    ensures
        ({
            let plan = Plan::LeftJoin {
                left: Box::new(left),
                right: Box::new(right),
                expression,
                keys,
            };
            same(eval(world, normalize(plan, types), input), eval(world, plan, input))
        }),
    decreases
            (Plan::LeftJoin { left: Box::new(left), right: Box::new(right), expression, keys }),
            0nat,
{
    let plan = Plan::LeftJoin {
        left: Box::new(left),
        right: Box::new(right),
        expression,
        keys,
    };
    let (l, r) = (normalize(left, types), normalize(right, types));
    let inner_types = intersect(infer(l, types), infer(r, types));
    let e = normalize_expr(expression, inner_types);
    let (a, b) = (plan_variables(left), plan_variables(right));
    lemma_normalize_tamer(left, types, threshold);
    lemma_normalize_tamer(right, types, threshold);
    lemma_right_scoped(left, right, expression, keys, sure, outside, late, threshold);
    assert(scoped(l, sure, outside, late, threshold));
    assert(scoped(r, sure, outside, late.union(a), threshold));
    lemma_scoped_hygienic(l, sure, outside, late, threshold);
    lemma_scoped_hygienic(r, sure, outside, late.union(a), threshold);
    let (x, y) = (eval(world, l, input), eval(world, left, input));
    let (p, q) = (eval(world, r, input), eval(world, right, input));
    lemma_same_items(x, y);
    let wide = outside.union(late).union(a).union(b);
    let certain = sure.union(binds(left)).union(binds(right));
    assert(decreases_to!(plan => expression));
    assert forall|s: Solution, t: Solution|
        y.contains(s) && #[trigger] joined_with(s, q).contains(t) implies holds(world, e, t)
        == holds(world, expression, t) by {
        assert(x.contains(s));
        lemma_gather_order(
            p,
            q,
            |other: Solution| merged(s, other),
        );
        lemma_same_items(joined_with(s, p), joined_with(s, q));
        lemma_joined_placed(world, l, r, input, types, outside, s, t);
        lemma_normalize_expr(world, expression, inner_types, t, certain, wide, threshold);
    }
    lemma_left_join_same(world, x, y, p, q, e, expression);
    lemma_left_join(world, l, r, e, keys, input);
}

#[verifier::spinoff_prover]
proof fn lemma_normalize_filter(
    world: World,
    inner: Plan,
    expression: Expr,
    types: Types,
    input: Solution,
    sure: Names,
    outside: Names,
    late: Names,
    threshold: nat,
)
    requires
        regular(world),
        placed(input, types, outside),
        scoped(
            (Plan::Filter { inner: Box::new(inner), expression }),
            sure,
            outside,
            late,
            threshold,
        ),
        same(eval(world, normalize(inner, types), input), eval(world, inner, input)),
    ensures
        ({
            let plan = Plan::Filter { inner: Box::new(inner), expression };
            same(eval(world, normalize(plan, types), input), eval(world, plan, input))
        }),
    decreases (Plan::Filter { inner: Box::new(inner), expression }), 0nat,
{
    let plan = Plan::Filter { inner: Box::new(inner), expression };
    let i = normalize(inner, types);
    let t = infer(i, types);
    let e = normalize_expr(expression, t);
    lemma_normalize_tamer(inner, types, threshold);
    assert(scoped(i, sure, outside, late, threshold));
    lemma_scoped_hygienic(i, sure, outside, late, threshold);
    let (x, y) = (eval(world, i, input), eval(world, inner, input));
    lemma_same_items(x, y);
    let wide = outside.union(late).union(plan_variables(inner));
    let certain = sure.union(binds(inner));
    assert(decreases_to!(plan => expression));
    assert forall|s: Solution| #[trigger] y.contains(s) implies value(world, e, s) == value(
        world,
        expression,
        s,
    ) && of_type(infer_expr(e, t), value(world, e, s)) by {
        assert(x.contains(s));
        lemma_solution_placed(world, i, input, types, outside, s);
        lemma_normalize_expr(world, expression, t, s, certain, wide, threshold);
        lemma_expr_typed(world, e, s, t, Set::empty());
    }
    if infer_expr(e, t) == VariableType::of_undef() {
        let ok = condition(world, expression);
        assert forall|k: int| 0 <= k < y.len() implies !ok(#[trigger] y[k]) by {
            lemma_contains_index(y, k);
            assert(value(world, expression, y[k]) is None);
            assert(!holds(world, expression, y[k]));
        }
        lemma_keep_none(y, ok);
        lemma_empty(world, empty(), input);
    } else {
        assert forall|s: Solution| #[trigger] y.contains(s) implies holds(world, e, s) == holds(
            world,
            expression,
            s,
        ) by {
            assert(value(world, e, s) == value(world, expression, s));
        }
        lemma_filter_same(world, x, y, e, expression);
        lemma_filter(world, i, e, input);
    }
}

#[verifier::spinoff_prover]
proof fn lemma_normalize_extend(
    world: World,
    inner: Plan,
    variable: Seq<char>,
    expression: Expr,
    types: Types,
    input: Solution,
    sure: Names,
    outside: Names,
    late: Names,
    threshold: nat,
)
    requires
        regular(world),
        placed(input, types, outside),
        scoped(
            (Plan::Extend { inner: Box::new(inner), variable, expression }),
            sure,
            outside,
            late,
            threshold,
        ),
        same(eval(world, normalize(inner, types), input), eval(world, inner, input)),
    ensures
        ({
            let plan = Plan::Extend { inner: Box::new(inner), variable, expression };
            same(eval(world, normalize(plan, types), input), eval(world, plan, input))
        }),
    decreases (Plan::Extend { inner: Box::new(inner), variable, expression }), 0nat,
{
    let plan = Plan::Extend { inner: Box::new(inner), variable, expression };
    let i = normalize(inner, types);
    let t = infer(i, types);
    let e = normalize_expr(expression, t);
    lemma_normalize_tamer(inner, types, threshold);
    assert(scoped(i, sure, outside, late, threshold));
    lemma_scoped_hygienic(i, sure, outside, late, threshold);
    let (x, y) = (eval(world, i, input), eval(world, inner, input));
    lemma_same_items(x, y);
    let wide = outside.union(late).union(plan_variables(inner));
    let certain = sure.union(binds(inner));
    assert(decreases_to!(plan => expression));
    assert forall|s: Solution| #[trigger] y.contains(s) implies value(world, e, s) == value(
        world,
        expression,
        s,
    ) && of_type(infer_expr(e, t), value(world, e, s)) by {
        assert(x.contains(s));
        lemma_solution_placed(world, i, input, types, outside, s);
        lemma_normalize_expr(world, expression, t, s, certain, wide, threshold);
        lemma_expr_typed(world, e, s, t, Set::empty());
    }
    if infer_expr(e, t) == VariableType::of_undef() {
        let f = extender(world, variable, expression);
        assert forall|k: int| 0 <= k < y.len() implies f(#[trigger] y[k]) == seq![y[k]] by {
            lemma_contains_index(y, k);
            assert(value(world, expression, y[k]) is None);
            assert(f(y[k]) == extended(y[k], variable, None));
        }
        lemma_gather_items(y, f);
    } else {
        lemma_extend_same(world, x, y, variable, e, expression);
        lemma_extend(world, i, variable, e, input);
    }
}

/// Normalization keeps the value of an expression.
#[verifier::spinoff_prover]
#[verifier::rlimit(60)]
pub proof fn lemma_normalize_expr(
    world: World,
    expression: Expr,
    types: Types,
    s: Solution,
    sure: Names,
    outside: Names,
    threshold: nat,
)
    requires
        regular(world),
        distinct_variables(types),
        has_types(s, types),
        s.dom().subset_of(outside),
        scoped_expr(expression, sure, outside, threshold),
    ensures
        value(world, normalize_expr(expression, types), s) == value(world, expression, s),
    decreases expression, 1nat,
{
    match expression {
        Expr::NamedNode(_) | Expr::Literal(_) | Expr::Variable(_) => {},
        Expr::Or(inner)
        | Expr::And(inner)
        | Expr::Coalesce(inner)
        | Expr::FunctionCall(_, inner) => {
            let all = normalize_exprs(inner, types);
            assert(all_scoped_exprs(inner, sure, outside, threshold));
            assert forall|i: int| 0 <= i < all.len() implies value(world, #[trigger] all[i], s)
                == value(world, inner[i], s) && (proper_expr(inner[i]) ==> proper_expr(all[i])) by {
                lemma_normalize_expr(world, inner[i], types, s, sure, outside, threshold);
                lemma_normalize_expr_tamer(inner[i], types, threshold);
            }
            assert(truths(world, all, s) =~= truths(world, inner, s)) by {
                assert forall|i: int| 0 <= i < all.len() implies truths(world, all, s)[i]
                    == truths(world, inner, s)[i] by {
                    assert(value(world, all[i], s) == value(world, inner[i], s));
                }
            }
            assert(crate::semantics::values(world, all, s) =~= crate::semantics::values(
                world,
                inner,
                s,
            )) by {
                assert forall|i: int| 0 <= i < all.len() implies crate::semantics::values(
                    world,
                    all,
                    s,
                )[i] == crate::semantics::values(world, inner, s)[i] by {
                    assert(value(world, all[i], s) == value(world, inner[i], s));
                }
            }
            if expression is Or || expression is And {
                assert(all_proper_exprs(inner));
                assert(all_proper_exprs(all)) by {
                    assert forall|i: int| 0 <= i < all.len() implies proper_expr(
                        #[trigger] all[i],
                    ) by {
                        assert(proper_expr(inner[i]));
                    }
                }
                lemma_or_all(world, all, s);
                lemma_and_all(world, all, s);
            }
        },
        Expr::Equal(left, right) => {
            let (l, r) = (normalize_expr(*left, types), normalize_expr(*right, types));
            lemma_normalize_expr(world, *left, types, s, sure, outside, threshold);
            lemma_normalize_expr(world, *right, types, s, sure, outside, threshold);
            lemma_expr_typed(world, l, s, types, Set::empty());
            lemma_expr_typed(world, r, s, types, Set::empty());
            lemma_normalize_expr_tamer(*left, types, threshold);
            lemma_normalize_expr_tamer(*right, types, threshold);
            lemma_typed_equal(
                world,
                l,
                infer_expr(l, types),
                r,
                infer_expr(r, types),
                s,
            );
        },
        Expr::SameTerm(left, right) => {
            lemma_normalize_expr(world, *left, types, s, sure, outside, threshold);
            lemma_normalize_expr(world, *right, types, s, sure, outside, threshold);
            lemma_same_term(
                world,
                normalize_expr(*left, types),
                normalize_expr(*right, types),
                s,
            );
        },
        Expr::Greater(left, right)
        | Expr::GreaterOrEqual(left, right)
        | Expr::Less(left, right)
        | Expr::LessOrEqual(left, right)
        | Expr::Add(left, right)
        | Expr::Subtract(left, right)
        | Expr::Multiply(left, right)
        | Expr::Divide(left, right) => {
            lemma_normalize_expr(world, *left, types, s, sure, outside, threshold);
            lemma_normalize_expr(world, *right, types, s, sure, outside, threshold);
        },
        Expr::UnaryPlus(inner) | Expr::UnaryMinus(inner) => {
            lemma_normalize_expr(world, *inner, types, s, sure, outside, threshold);
        },
        Expr::Not(inner) => {
            let i = normalize_expr(*inner, types);
            lemma_normalize_expr(world, *inner, types, s, sure, outside, threshold);
            lemma_normalize_expr_tamer(*inner, types, threshold);
            lemma_not(world, i, s);
        },
        Expr::Exists(inner) => {
            let i = normalize(*inner, types);
            lemma_normalize(world, *inner, types, s, sure, outside, set![], threshold);
            lemma_same_items(eval(world, i, s), eval(world, *inner, s));
            lemma_exists(world, i, s);
        },
        Expr::Bound(variable) => {
            lemma_known(world, truth(true), s);
            assert(allowed(type_of(types, variable), lookup(s, variable), false));
        },
        Expr::If(condition, then_case, else_case) => {
            lemma_normalize_expr(world, *condition, types, s, sure, outside, threshold);
            lemma_normalize_expr(world, *then_case, types, s, sure, outside, threshold);
            lemma_normalize_expr(world, *else_case, types, s, sure, outside, threshold);
            lemma_if(
                world,
                normalize_expr(*condition, types),
                normalize_expr(*then_case, types),
                normalize_expr(*else_case, types),
                s,
            );
        },
    }
}

/// Equality is identity unless both values can be literals or triples.
proof fn lemma_typed_equal(
    world: World,
    left: Expr,
    left_type: VariableType,
    right: Expr,
    right_type: VariableType,
    s: Solution,
)
    requires
        regular(world),
        never_nan(left) || never_nan(right),
        of_type(left_type, value(world, left, s)),
        of_type(right_type, value(world, right, s)),
    ensures
        value(world, typed_equal(left, left_type, right, right_type), s) == value(
            world,
            Expr::Equal(Box::new(left), Box::new(right)),
            s,
        ),
{
    lemma_equal(world, left, right, s);
    lemma_same_term(world, left, right, s);
    match (value(world, left, s), value(world, right, s)) {
        (Some(l), Some(r)) => {
            if !(left_type.literal && right_type.literal) && !(left_type.triple
                && right_type.triple) {
                assert((world.equals)(l, r) == Some(l == r));
            }
        },
        _ => {},
    }
}

/// Normalization preserves the solutions of a plan, each as often as before.
pub proof fn law_normalize_preserves(
    world: World,
    plan: Plan,
    types: Types,
    input: Solution,
    outside: Names,
    threshold: nat,
)
    requires
        regular(world),
        placed(input, types, outside),
        scoped(plan, set![], outside, set![], threshold),
    ensures
        same(eval(world, normalize(plan, types), input), eval(world, plan, input)),
{
    lemma_normalize(world, plan, types, input, set![], outside, set![], threshold);
}

} // verus!
