//! No step of the optimizer nests EXISTS deeper.

use vstd::prelude::*;

use crate::algebra::{Expr, OrderExpr, Plan};
use crate::arrange::{in_order, lemma_in_order};
use crate::bags::lemma_same_items;
use crate::builders::{
    and_all, extend, filter, group, join, lateral, left_join, project, slice, truth, union_all,
};
use crate::estimate::larger;
use crate::factors::{
    common_factors, factor_common, factors_of_branches, join_factors, joined, joined_onto,
    reduced_branches, without_common,
};
use crate::lookups::all_bound;
use crate::measure::{
    depth, expr_depth, exprs_depth, lemma_and_or_depth, lemma_concat_depth, lemma_concat_weight,
    lemma_exprs_depth, lemma_filter_measure, lemma_item_depth, lemma_join_measure,
    lemma_lateral_measure, lemma_left_join_measure, lemma_max_depth, lemma_minus_measure,
    lemma_not_depth, lemma_orders_depth, lemma_product_grows, lemma_push_measure,
    lemma_single_measure, lemma_unary_measure, lemma_union_measure, max_depth, order_depth,
    orders_depth, weight, weight_product,
};
use crate::normalize::{
    normalize, normalize_all, normalize_expr, normalize_exprs, normalize_order, normalize_orders,
};
use crate::push_filters::{
    added_filters, bound_filters, doubly_open_filters, filters_with, filters_without,
    is_right_condition, open_filters, push, push_all,
};
use crate::type_inference::{infer, intersect, Types};
use crate::variables::expr_variables;

verus! {

/// The factors of a join weigh together what the join weighs.
pub proof fn lemma_join_factors_measure(plan: Plan)
    ensures
        weight_product(join_factors(plan)) == weight(plan),
        max_depth(join_factors(plan)) <= depth(plan),
    decreases plan,
{
    match plan {
        Plan::Join { left, right, .. } => {
            lemma_join_factors_measure(*left);
            lemma_join_factors_measure(*right);
            lemma_concat_weight(join_factors(*left), join_factors(*right));
            lemma_concat_depth(join_factors(*left), join_factors(*right), depth(plan));
        },
        _ => {
            lemma_single_measure(plan);
        },
    }
}

/// The join of some factors weighs at most what they weigh together.
pub proof fn lemma_joined_measure(factors: Seq<Plan>)
    ensures
        depth(joined(factors)) <= max_depth(factors),
        factors.len() > 0 ==> weight(joined(factors)) <= weight_product(factors),
    decreases factors.len(),
{
    if factors.len() == 1 {
        lemma_single_measure(factors[0]);
        assert(factors =~= seq![factors[0]]);
    } else if factors.len() > 1 {
        let shorter = factors.drop_last();
        lemma_joined_measure(shorter);
        lemma_join_measure(joined(shorter), factors.last(), seq![]);
        lemma_product_grows(
            weight(joined(shorter)),
            weight(factors.last()),
            weight_product(shorter),
            weight(factors.last()),
        );
    }
}

proof fn lemma_joined_onto_depth(plan: Plan, factors: Seq<Plan>)
    ensures
        depth(joined_onto(plan, factors)) <= larger(depth(plan), max_depth(factors)),
    decreases factors.len(),
{
    if factors.len() > 0 {
        lemma_joined_onto_depth(plan, factors.drop_last());
        lemma_join_measure(joined_onto(plan, factors.drop_last()), factors.last(), seq![]);
    }
}

proof fn lemma_common_depth(branch_factors: Seq<Seq<Plan>>, count: int, most: nat)
    requires
        branch_factors.len() > 0,
        count <= branch_factors[0].len(),
        max_depth(branch_factors[0]) <= most,
    ensures
        max_depth(common_factors(branch_factors, count)) <= most,
    decreases count,
{
    if count > 0 {
        lemma_common_depth(branch_factors, count - 1, most);
        lemma_max_depth(branch_factors[0], most);
        lemma_push_measure(
            common_factors(branch_factors, count - 1),
            branch_factors[0][count - 1],
        );
    }
}

proof fn lemma_without_common_depth(factors: Seq<Plan>, common: Seq<Plan>, most: nat)
    requires
        max_depth(factors) <= most,
    ensures
        max_depth(without_common(factors, common)) <= most,
    decreases common.len(),
{
    if common.len() > 0 {
        let before = without_common(factors, common.drop_last());
        lemma_without_common_depth(factors, common.drop_last(), most);
        before.index_of_first_ensures(common.last());
        let after = before.remove_value(common.last());
        lemma_max_depth(before, most);
        lemma_max_depth(after, most);
        assert forall|i: int| 0 <= i < after.len() implies depth(#[trigger] after[i]) <= most by {
            match before.index_of_first(common.last()) {
                Some(k) => {
                    assert(after[i] == before[if i < k { i } else { i + 1 }]);
                },
                None => {
                    assert(after[i] == before[i]);
                },
            }
        }
    }
}

proof fn lemma_factor_common_depth(branches: Seq<Plan>)
    ensures
        depth(factor_common(branches)) <= max_depth(branches),
{
    let most = max_depth(branches);
    if branches.len() < 2 {
        lemma_union_measure(branches);
    } else {
        let all = factors_of_branches(branches);
        assert forall|b: int| 0 <= b < all.len() implies max_depth(#[trigger] all[b]) <= most by {
            lemma_join_factors_measure(branches[b]);
            lemma_item_depth(branches, b);
        }
        assert(max_depth(all[0]) <= most);
        let common = common_factors(all, all[0].len() as int);
        lemma_common_depth(all, all[0].len() as int, most);
        let rest = reduced_branches(all, common);
        assert forall|b: int| 0 <= b < rest.len() implies depth(#[trigger] rest[b]) <= most by {
            assert(max_depth(all[b]) <= most);
            lemma_without_common_depth(all[b], common, most);
            lemma_joined_measure(without_common(all[b], common));
        }
        lemma_max_depth(rest, most);
        lemma_union_measure(rest);
        lemma_joined_onto_depth(union_all(rest), common);
    }
}

/// Normalization does not nest EXISTS deeper.
pub proof fn lemma_normalize_depth(plan: Plan, types: Types)
    ensures
        depth(normalize(plan, types)) <= depth(plan),
    decreases plan,
{
    match plan {
        Plan::Join { left, right, .. } => {
            lemma_normalize_depth(*left, types);
            lemma_normalize_depth(*right, types);
            let (l, r) = (normalize(*left, types), normalize(*right, types));
            let factors = join_factors(l) + join_factors(r);
            lemma_join_factors_measure(l);
            lemma_join_factors_measure(r);
            lemma_in_order(factors);
            lemma_same_items(in_order(factors), factors);
            lemma_joined_measure(in_order(factors));
            let most = larger(depth(l), depth(r));
            assert forall|i: int| 0 <= i < in_order(factors).len() implies depth(
                #[trigger] in_order(factors)[i],
            ) <= most by {
                assert(in_order(factors).contains(in_order(factors)[i]));
                let k = choose|k: int| 0 <= k < factors.len() && factors[k] == in_order(factors)[i];
                if k < join_factors(l).len() {
                    lemma_item_depth(join_factors(l), k);
                } else {
                    lemma_item_depth(join_factors(r), k - join_factors(l).len());
                }
            }
            lemma_max_depth(in_order(factors), most);
        },
        Plan::LeftJoin { left, right, expression, keys } => {
            lemma_normalize_depth(*left, types);
            lemma_normalize_depth(*right, types);
            let new_left = normalize(*left, types);
            let new_right = normalize(*right, types);
            let inner_types = intersect(
                infer(new_left, types),
                infer(new_right, types),
            );
            lemma_normalize_expr_depth(expression, inner_types);
            lemma_left_join_measure(
                new_left,
                new_right,
                normalize_expr(expression, inner_types),
                keys,
            );
        },
        Plan::Lateral { left, right } => {
            lemma_normalize_depth(*left, types);
            let new_left = normalize(*left, types);
            lemma_normalize_depth(*right, infer(new_left, types));
            lemma_lateral_measure(new_left, normalize(*right, infer(new_left, types)));
        },
        Plan::Filter { inner, expression } => {
            lemma_normalize_depth(*inner, types);
            let new_inner = normalize(*inner, types);
            let inner_types = infer(new_inner, types);
            lemma_normalize_expr_depth(expression, inner_types);
            lemma_filter_measure(new_inner, normalize_expr(expression, inner_types));
        },
        Plan::Union { inner } => {
            let all = normalize_all(inner, types);
            assert forall|i: int| 0 <= i < all.len() implies depth(#[trigger] all[i])
                <= max_depth(inner) by {
                lemma_normalize_depth(inner[i], types);
                lemma_item_depth(inner, i);
            }
            lemma_max_depth(all, max_depth(inner));
            lemma_union_measure(all);
            match union_all(all) {
                Plan::Union { inner: flat } => {
                    lemma_factor_common_depth(flat);
                },
                _ => {},
            }
        },
        Plan::Extend { inner, variable, expression } => {
            lemma_normalize_depth(*inner, types);
            let new_inner = normalize(*inner, types);
            let inner_types = infer(new_inner, types);
            lemma_normalize_expr_depth(expression, inner_types);
            lemma_unary_measure(new_inner);
        },
        Plan::Minus { left, right, keys } => {
            lemma_normalize_depth(*left, types);
            lemma_normalize_depth(*right, types);
            lemma_minus_measure(normalize(*left, types), normalize(*right, types), keys);
        },
        Plan::OrderBy { inner, expression } => {
            lemma_normalize_depth(*inner, types);
            let new_inner = normalize(*inner, types);
            let inner_types = infer(new_inner, types);
            let criteria = normalize_orders(expression, inner_types);
            lemma_orders_depth(expression, orders_depth(expression));
            assert forall|i: int| 0 <= i < criteria.len() implies order_depth(
                #[trigger] criteria[i],
            ) <= orders_depth(expression) by {
                assert(order_depth(expression[i]) <= orders_depth(expression));
                lemma_normalize_order_depth(expression[i], inner_types);
            }
            lemma_orders_depth(criteria, orders_depth(expression));
            lemma_unary_measure(new_inner);
        },
        Plan::Project { inner, .. }
        | Plan::Distinct { inner }
        | Plan::Reduced { inner }
        | Plan::Slice { inner, .. }
        | Plan::Group { inner, .. } => {
            lemma_normalize_depth(*inner, types);
            lemma_unary_measure(normalize(*inner, types));
        },
        _ => {},
    }
}

proof fn lemma_normalize_order_depth(criterion: OrderExpr, types: Types)
    ensures
        order_depth(normalize_order(criterion, types)) <= order_depth(criterion),
    decreases criterion,
{
    match criterion {
        OrderExpr::Asc(expression) | OrderExpr::Desc(expression) => {
            lemma_normalize_expr_depth(expression, types);
        },
    }
}

proof fn lemma_normalize_exprs_depth(expressions: Seq<Expr>, types: Types)
    ensures
        exprs_depth(normalize_exprs(expressions, types)) <= exprs_depth(expressions),
    decreases expressions,
{
    let most = exprs_depth(expressions);
    let all = normalize_exprs(expressions, types);
    lemma_exprs_depth(expressions, most);
    assert forall|i: int| 0 <= i < all.len() implies expr_depth(#[trigger] all[i]) <= most by {
        assert(expr_depth(expressions[i]) <= most);
        lemma_normalize_expr_depth(expressions[i], types);
    }
    lemma_exprs_depth(all, most);
}

/// Normalization does not nest EXISTS deeper.
pub proof fn lemma_normalize_expr_depth(expression: Expr, types: Types)
    ensures
        expr_depth(normalize_expr(expression, types)) <= expr_depth(expression),
    decreases expression,
{
    match expression {
        Expr::Or(inner)
        | Expr::And(inner)
        | Expr::Coalesce(inner)
        | Expr::FunctionCall(_, inner) => {
            lemma_normalize_exprs_depth(inner, types);
            lemma_and_or_depth(normalize_exprs(inner, types));
        },
        Expr::Equal(left, right)
        | Expr::SameTerm(left, right)
        | Expr::Greater(left, right)
        | Expr::GreaterOrEqual(left, right)
        | Expr::Less(left, right)
        | Expr::LessOrEqual(left, right)
        | Expr::Add(left, right)
        | Expr::Subtract(left, right)
        | Expr::Multiply(left, right)
        | Expr::Divide(left, right) => {
            lemma_normalize_expr_depth(*left, types);
            lemma_normalize_expr_depth(*right, types);
        },
        Expr::UnaryPlus(inner) | Expr::UnaryMinus(inner) => {
            lemma_normalize_expr_depth(*inner, types);
        },
        Expr::Not(inner) => {
            lemma_normalize_expr_depth(*inner, types);
            lemma_not_depth(normalize_expr(*inner, types));
        },
        Expr::Exists(inner) => {
            lemma_normalize_depth(*inner, types);
        },
        Expr::If(condition, then_case, else_case) => {
            lemma_normalize_expr_depth(*condition, types);
            lemma_normalize_expr_depth(*then_case, types);
            lemma_normalize_expr_depth(*else_case, types);
        },
        _ => {},
    }
}

/// Some of the filters are not deeper than all of them.
proof fn lemma_kept_depth(filters: Seq<Expr>, keep: spec_fn(Expr) -> bool)
    ensures
        exprs_depth(filters.filter(keep)) <= exprs_depth(filters),
    decreases filters.len(),
{
    reveal(Seq::filter);
    if filters.len() > 0 {
        lemma_kept_depth(filters.drop_last(), keep);
        let kept = filters.drop_last().filter(keep);
        assert(kept.push(filters.last()).drop_last() =~= kept);
    }
}

/// Moving filters does not nest EXISTS deeper.
pub proof fn lemma_push_depth(plan: Plan, filters: Seq<Expr>, types: Types)
    ensures
        depth(push(plan, filters, types)) <= larger(depth(plan), exprs_depth(filters)),
    decreases plan,
{
    lemma_and_or_depth(filters);
    assert(exprs_depth(Seq::<Expr>::empty()) == 0);
    match plan {
        Plan::Join { left, right, keys } => {
            let left_types = infer(*left, types);
            let right_types = infer(*right, types);
            let left_filters = bound_filters(filters, left_types);
            let right_filters = bound_filters(filters, right_types);
            let rest = doubly_open_filters(filters, left_types, right_types);
            lemma_kept_depth(filters, |f: Expr| all_bound(f, left_types));
            lemma_kept_depth(filters, |f: Expr| all_bound(f, right_types));
            lemma_kept_depth(
                filters,
                |f: Expr|
                    !all_bound(f, left_types) && !all_bound(
                        f,
                        right_types,
                    ),
            );
            lemma_push_depth(*left, left_filters, types);
            lemma_push_depth(*right, right_filters, types);
            let (l, r) = (push(*left, left_filters, types), push(*right, right_filters, types));
            lemma_join_measure(l, r, keys);
            lemma_and_or_depth(rest);
            lemma_filter_measure(join(l, r, keys), and_all(rest));
        },
        Plan::Lateral { left, right } => {
            let left_types = infer(*left, types);
            let left_filters = bound_filters(filters, left_types);
            let right_filters = open_filters(filters, left_types);
            lemma_kept_depth(filters, |f: Expr| all_bound(f, left_types));
            lemma_kept_depth(filters, |f: Expr| !all_bound(f, left_types));
            lemma_push_depth(*left, left_filters, types);
            lemma_push_depth(*right, right_filters, left_types);
            let l = push(*left, left_filters, types);
            let r = push(*right, right_filters, left_types);
            lemma_lateral_measure(l, r);
            match r {
                Plan::Filter { inner, expression } => {
                    lemma_lateral_measure(l, *inner);
                    lemma_filter_measure(lateral(l, *inner), expression);
                },
                _ => {},
            }
        },
        Plan::LeftJoin { left, right, expression, keys } => {
            let left_types = infer(*left, types);
            let right_types = infer(*right, types);
            let left_filters = bound_filters(filters, left_types);
            let rest = open_filters(filters, left_types);
            lemma_kept_depth(filters, |f: Expr| all_bound(f, left_types));
            lemma_kept_depth(filters, |f: Expr| !all_bound(f, left_types));
            let moves = is_right_condition(expression, left_types, right_types);
            let right_filters = if moves {
                seq![expression]
            } else {
                seq![]
            };
            lemma_exprs_depth(right_filters, expr_depth(expression));
            lemma_push_depth(*left, left_filters, types);
            lemma_push_depth(*right, right_filters, types);
            let condition = if moves {
                truth(true)
            } else {
                expression
            };
            assert(expr_depth(truth(true)) == 0);
            let (l, r) = (push(*left, left_filters, types), push(*right, right_filters, types));
            lemma_left_join_measure(l, r, condition, keys);
            lemma_and_or_depth(rest);
            lemma_filter_measure(
                left_join(l, r, condition, keys),
                and_all(rest),
            );
        },
        Plan::Minus { left, right, keys } => {
            lemma_push_depth(*left, filters, types);
            lemma_push_depth(*right, seq![], types);
            lemma_minus_measure(push(*left, filters, types), push(*right, seq![], types), keys);
        },
        Plan::Extend { inner, variable, expression } => {
            let inner_filters = filters_without(filters, variable);
            let rest = filters_with(filters, variable);
            lemma_kept_depth(
                filters,
                |f: Expr| !expr_variables(f).contains(variable),
            );
            lemma_kept_depth(
                filters,
                |f: Expr| expr_variables(f).contains(variable),
            );
            lemma_push_depth(*inner, inner_filters, types);
            let new_inner = push(*inner, inner_filters, types);
            lemma_unary_measure(new_inner);
            lemma_and_or_depth(rest);
            lemma_filter_measure(
                extend(new_inner, variable, expression),
                and_all(rest),
            );
        },
        Plan::Filter { inner, expression } => {
            let all = added_filters(filters, expression);
            let most = larger(expr_depth(expression), exprs_depth(filters));
            lemma_exprs_depth(filters, most);
            match expression {
                Expr::And(parts) => {
                    lemma_exprs_depth(parts, most);
                    assert forall|i: int| 0 <= i < all.len() implies expr_depth(#[trigger] all[i])
                        <= most by {
                        if i < filters.len() {
                            assert(all[i] == filters[i]);
                        } else {
                            assert(all[i] == parts[i - filters.len()]);
                        }
                    }
                },
                _ => {
                    assert forall|i: int| 0 <= i < all.len() implies expr_depth(#[trigger] all[i])
                        <= most by {
                        if i < filters.len() {
                            assert(all[i] == filters[i]);
                        }
                    }
                },
            }
            lemma_exprs_depth(all, most);
            lemma_push_depth(*inner, all, types);
        },
        Plan::Union { inner } => {
            let all = push_all(inner, filters, types);
            let most = larger(depth(plan), exprs_depth(filters));
            assert forall|i: int| 0 <= i < all.len() implies depth(#[trigger] all[i]) <= most by {
                lemma_push_depth(inner[i], filters, types);
                lemma_item_depth(inner, i);
            }
            lemma_max_depth(all, most);
            lemma_union_measure(all);
        },
        Plan::Slice { inner, start, length } => {
            lemma_push_depth(*inner, seq![], types);
            let new_inner = push(*inner, seq![], types);
            lemma_unary_measure(new_inner);
            lemma_filter_measure(
                slice(new_inner, start, length),
                and_all(filters),
            );
        },
        Plan::Distinct { inner } | Plan::Reduced { inner } | Plan::OrderBy { inner, .. } => {
            lemma_push_depth(*inner, filters, types);
            lemma_unary_measure(push(*inner, filters, types));
        },
        Plan::Project { inner, variables } => {
            lemma_push_depth(*inner, seq![], types);
            let new_inner = push(*inner, seq![], types);
            lemma_unary_measure(new_inner);
            lemma_filter_measure(project(new_inner, variables), and_all(filters));
        },
        Plan::Group { inner, variables, aggregates } => {
            lemma_push_depth(*inner, seq![], types);
            let new_inner = push(*inner, seq![], types);
            lemma_unary_measure(new_inner);
            lemma_filter_measure(
                group(new_inner, variables, aggregates),
                and_all(filters),
            );
        },
        _ => {
            lemma_filter_measure(plan, and_all(filters));
        },
    }
}

} // verus!
