//! Measures of plans: how deep their EXISTS are nested, and a weight that no
//! rewriting of joins increases.

use vstd::prelude::*;

use crate::algebra::{AggregateExpr, Expr, OrderExpr, Plan};
use crate::builders::{
    all_branches, all_conjuncts, all_disjuncts, and_all, branches, conjuncts, disjuncts, distinct,
    empty, extend, filter, group, is_empty_singleton, join, lateral, left_join, minus, not, or_all,
    order_by, project, reduced, slice, truth, union_all, without_singleton_and,
};
use crate::estimate::larger;

verus! {

/// How deep the EXISTS in a plan are nested.
pub open spec fn depth(plan: Plan) -> nat
    decreases plan,
{
    match plan {
        Plan::QuadPattern { .. } | Plan::Path { .. } | Plan::Graph { .. } | Plan::Values { .. } => 0,
        Plan::Join { left, right, .. }
        | Plan::Lateral { left, right }
        | Plan::Minus { left, right, .. } => larger(depth(*left), depth(*right)),
        Plan::LeftJoin { left, right, expression, .. } => larger(
            larger(depth(*left), depth(*right)),
            expr_depth(expression),
        ),
        Plan::Filter { inner, expression } | Plan::Extend { inner, expression, .. } => larger(
            depth(*inner),
            expr_depth(expression),
        ),
        Plan::Union { inner } => max_depth(inner),
        Plan::OrderBy { inner, expression } => larger(depth(*inner), orders_depth(expression)),
        Plan::Project { inner, .. }
        | Plan::Distinct { inner }
        | Plan::Reduced { inner }
        | Plan::Slice { inner, .. }
        | Plan::Service { inner, .. } => depth(*inner),
        Plan::Group { inner, aggregates, .. } => larger(
            depth(*inner),
            aggregates_depth(aggregates),
        ),
    }
}

/// How deep the EXISTS in an expression are nested.
pub open spec fn expr_depth(expression: Expr) -> nat
    decreases expression,
{
    match expression {
        Expr::NamedNode(_) | Expr::Literal(_) | Expr::Variable(_) | Expr::Bound(_) => 0,
        Expr::Or(inner)
        | Expr::And(inner)
        | Expr::Coalesce(inner)
        | Expr::FunctionCall(_, inner) => exprs_depth(inner),
        Expr::Equal(left, right)
        | Expr::SameTerm(left, right)
        | Expr::Greater(left, right)
        | Expr::GreaterOrEqual(left, right)
        | Expr::Less(left, right)
        | Expr::LessOrEqual(left, right)
        | Expr::Add(left, right)
        | Expr::Subtract(left, right)
        | Expr::Multiply(left, right)
        | Expr::Divide(left, right) => larger(expr_depth(*left), expr_depth(*right)),
        Expr::UnaryPlus(inner) | Expr::UnaryMinus(inner) | Expr::Not(inner) => expr_depth(*inner),
        Expr::Exists(inner) => depth(*inner) + 1,
        Expr::If(condition, then_case, else_case) => larger(
            expr_depth(*condition),
            larger(expr_depth(*then_case), expr_depth(*else_case)),
        ),
    }
}

pub open spec fn order_depth(criterion: OrderExpr) -> nat
    decreases criterion,
{
    match criterion {
        OrderExpr::Asc(expression) | OrderExpr::Desc(expression) => expr_depth(expression),
    }
}

pub open spec fn aggregate_depth(aggregate: AggregateExpr) -> nat
    decreases aggregate,
{
    match aggregate {
        AggregateExpr::CountSolutions { .. } => 0,
        AggregateExpr::FunctionCall { expr, .. } => expr_depth(*expr),
    }
}

pub open spec fn aggregates_depth(aggregates: Seq<(Seq<char>, AggregateExpr)>) -> nat
    decreases aggregates,
{
    if aggregates.len() == 0 {
        0
    } else {
        larger(
            aggregates_depth(aggregates.drop_last()),
            aggregate_depth(aggregates[aggregates.len() - 1].1),
        )
    }
}

pub open spec fn max_depth(items: Seq<Plan>) -> nat
    decreases items,
{
    if items.len() == 0 {
        0
    } else {
        larger(max_depth(items.drop_last()), depth(items[items.len() - 1]))
    }
}

pub open spec fn exprs_depth(items: Seq<Expr>) -> nat
    decreases items,
{
    if items.len() == 0 {
        0
    } else {
        larger(exprs_depth(items.drop_last()), expr_depth(items[items.len() - 1]))
    }
}

pub open spec fn orders_depth(items: Seq<OrderExpr>) -> nat
    decreases items,
{
    if items.len() == 0 {
        0
    } else {
        larger(orders_depth(items.drop_last()), order_depth(items[items.len() - 1]))
    }
}

/// The weight of the left side of a left join: one row without values costs nothing.
pub open spec fn left_weight(plan: Plan) -> nat
    decreases plan, 1nat,
{
    if is_empty_singleton(plan) {
        1
    } else {
        weight(plan)
    }
}

/// A weight that grows with the joins in a plan.
pub open spec fn weight(plan: Plan) -> nat
    decreases plan, 0nat,
{
    match plan {
        Plan::QuadPattern { .. }
        | Plan::Path { .. }
        | Plan::Graph { .. }
        | Plan::Values { .. }
        | Plan::Service { .. } => 3,
        Plan::Join { left, right, .. } | Plan::Lateral { left, right } => weight(*left) * weight(
            *right,
        ),
        Plan::LeftJoin { left, right, .. } => left_weight(*left) * (weight(*right) + 1),
        Plan::Minus { left, right, .. } => weight(*left) + weight(*right),
        Plan::Union { inner } => total_weight(inner) + 3,
        Plan::Filter { inner, .. }
        | Plan::Extend { inner, .. }
        | Plan::OrderBy { inner, .. }
        | Plan::Project { inner, .. }
        | Plan::Distinct { inner }
        | Plan::Reduced { inner }
        | Plan::Slice { inner, .. }
        | Plan::Group { inner, .. } => weight(*inner) + 1,
    }
}

pub open spec fn total_weight(plans: Seq<Plan>) -> nat
    decreases plans, 0nat,
{
    if plans.len() == 0 {
        0
    } else {
        total_weight(plans.drop_last()) + weight(plans[plans.len() - 1])
    }
}

/// The product of the weights of some plans.
pub open spec fn weight_product(plans: Seq<Plan>) -> nat
    decreases plans.len(),
{
    if plans.len() == 0 {
        1
    } else {
        weight_product(plans.drop_last()) * weight(plans.last())
    }
}

/// Whether a plan comes before another: fewer nested EXISTS, or as many and a
/// lower weight.
pub open spec fn lower(plan: Plan, other: Plan) -> bool {
    depth(plan) < depth(other) || depth(plan) == depth(other) && weight(plan) < weight(other)
}

/// A product grows with its factors.
pub proof fn lemma_product_grows(a: nat, b: nat, c: nat, d: nat)
    requires
        a <= c,
        b <= d,
    ensures
        a * b <= c * d,
{
    assert(a * b <= c * d) by (nonlinear_arith)
        requires
            0 <= a <= c,
            0 <= b <= d,
    ;
}

/// Every plan has some weight.
pub proof fn lemma_weight_positive(plan: Plan)
    ensures
        weight(plan) >= 3,
    decreases plan,
{
    match plan {
        Plan::Join { left, right, .. } | Plan::Lateral { left, right } => {
            lemma_weight_positive(*left);
            lemma_weight_positive(*right);
            lemma_product_grows(3, 1, weight(*left), weight(*right));
        },
        Plan::LeftJoin { left, right, .. } => {
            lemma_weight_positive(*left);
            lemma_weight_positive(*right);
            lemma_product_grows(1, 4, left_weight(*left), weight(*right) + 1);
        },
        Plan::Minus { left, right, .. } => {
            lemma_weight_positive(*left);
        },
        Plan::Filter { inner, .. }
        | Plan::Extend { inner, .. }
        | Plan::OrderBy { inner, .. }
        | Plan::Project { inner, .. }
        | Plan::Distinct { inner }
        | Plan::Reduced { inner }
        | Plan::Slice { inner, .. }
        | Plan::Group { inner, .. } => {
            lemma_weight_positive(*inner);
        },
        _ => {},
    }
}

/// The depth of a list bounds the depth of each of its items, and is the least such bound.
pub proof fn lemma_max_depth(items: Seq<Plan>, most: nat)
    ensures
        max_depth(items) <= most <==> forall|i: int|
            0 <= i < items.len() ==> depth(#[trigger] items[i]) <= most,
    decreases items.len(),
{
    if items.len() > 0 {
        let shorter = items.drop_last();
        lemma_max_depth(shorter, most);
        assert forall|i: int| 0 <= i < shorter.len() implies #[trigger] shorter[i] == items[i] by {}
        if max_depth(items) <= most {
            assert forall|i: int| 0 <= i < items.len() implies depth(#[trigger] items[i])
                <= most by {
                if i < shorter.len() {
                    assert(depth(shorter[i]) <= most);
                }
            }
        }
        if forall|i: int| 0 <= i < items.len() ==> depth(#[trigger] items[i]) <= most {
            assert forall|i: int| 0 <= i < shorter.len() implies depth(#[trigger] shorter[i])
                <= most by {
                assert(depth(items[i]) <= most);
            }
        }
    }
}

/// The depth of a list bounds the depth of each of its items, and is the least such bound.
pub proof fn lemma_exprs_depth(items: Seq<Expr>, most: nat)
    ensures
        exprs_depth(items) <= most <==> forall|i: int|
            0 <= i < items.len() ==> expr_depth(#[trigger] items[i]) <= most,
    decreases items.len(),
{
    if items.len() > 0 {
        let shorter = items.drop_last();
        lemma_exprs_depth(shorter, most);
        assert forall|i: int| 0 <= i < shorter.len() implies #[trigger] shorter[i] == items[i] by {}
        if exprs_depth(items) <= most {
            assert forall|i: int| 0 <= i < items.len() implies expr_depth(#[trigger] items[i])
                <= most by {
                if i < shorter.len() {
                    assert(expr_depth(shorter[i]) <= most);
                }
            }
        }
        if forall|i: int| 0 <= i < items.len() ==> expr_depth(#[trigger] items[i]) <= most {
            assert forall|i: int| 0 <= i < shorter.len() implies expr_depth(#[trigger] shorter[i])
                <= most by {
                assert(expr_depth(items[i]) <= most);
            }
        }
    }
}

/// The depth of a list bounds the depth of each of its items, and is the least such bound.
pub proof fn lemma_orders_depth(items: Seq<OrderExpr>, most: nat)
    ensures
        orders_depth(items) <= most <==> forall|i: int|
            0 <= i < items.len() ==> order_depth(#[trigger] items[i]) <= most,
    decreases items.len(),
{
    if items.len() > 0 {
        let shorter = items.drop_last();
        lemma_orders_depth(shorter, most);
        assert forall|i: int| 0 <= i < shorter.len() implies #[trigger] shorter[i] == items[i] by {}
        if orders_depth(items) <= most {
            assert forall|i: int| 0 <= i < items.len() implies order_depth(#[trigger] items[i])
                <= most by {
                if i < shorter.len() {
                    assert(order_depth(shorter[i]) <= most);
                }
            }
        }
        if forall|i: int| 0 <= i < items.len() ==> order_depth(#[trigger] items[i]) <= most {
            assert forall|i: int| 0 <= i < shorter.len() implies order_depth(#[trigger] shorter[i])
                <= most by {
                assert(order_depth(items[i]) <= most);
            }
        }
    }
}

/// Every item of a list has at most the depth of the list.
pub proof fn lemma_item_depth(plans: Seq<Plan>, i: int)
    requires
        0 <= i < plans.len(),
    ensures
        depth(plans[i]) <= max_depth(plans),
{
    lemma_max_depth(plans, max_depth(plans));
}

pub proof fn lemma_concat_depth(left: Seq<Plan>, right: Seq<Plan>, most: nat)
    requires
        max_depth(left) <= most,
        max_depth(right) <= most,
    ensures
        max_depth(left + right) <= most,
{
    lemma_max_depth(left, most);
    lemma_max_depth(right, most);
    lemma_max_depth(left + right, most);
    assert forall|i: int| 0 <= i < (left + right).len() implies depth(#[trigger] (left + right)[i])
        <= most by {
        if i < left.len() {
            assert((left + right)[i] == left[i]);
        } else {
            assert((left + right)[i] == right[i - left.len()]);
        }
    }
}

pub proof fn lemma_concat_weight(left: Seq<Plan>, right: Seq<Plan>)
    ensures
        total_weight(left + right) == total_weight(left) + total_weight(right),
        weight_product(left + right) == weight_product(left) * weight_product(right),
    decreases right.len(),
{
    if right.len() == 0 {
        assert(left + right =~= left);
        assert(weight_product(right) == 1);
        assert(weight_product(left) * 1 == weight_product(left)) by (nonlinear_arith);
    } else {
        lemma_concat_weight(left, right.drop_last());
        assert((left + right).drop_last() =~= left + right.drop_last());
        assert((left + right).last() == right.last());
        let (a, b, c) = (weight_product(left), weight_product(right.drop_last()), weight(
            right.last(),
        ));
        assert((a * b) * c == a * (b * c)) by (nonlinear_arith);
    }
}

pub proof fn lemma_product_positive(plans: Seq<Plan>)
    ensures
        weight_product(plans) >= 1,
        plans.len() > 0 ==> weight_product(plans) >= 3,
    decreases plans.len(),
{
    if plans.len() > 0 {
        lemma_product_positive(plans.drop_last());
        lemma_weight_positive(plans.last());
        lemma_product_grows(1, 3, weight_product(plans.drop_last()), weight(plans.last()));
    }
}

/// One plan is at most as heavy as the product with the others.
pub proof fn lemma_product_without(plans: Seq<Plan>, i: int)
    requires
        0 <= i < plans.len(),
    ensures
        weight_product(plans) == weight_product(plans.remove(i)) * weight(plans[i]),
        total_weight(plans) == total_weight(plans.remove(i)) + weight(plans[i]),
    decreases plans.len(),
{
    let rest = plans.remove(i);
    if i == plans.len() - 1 {
        assert(rest =~= plans.drop_last());
    } else {
        let shorter = plans.drop_last();
        lemma_product_without(shorter, i);
        assert(rest.drop_last() =~= shorter.remove(i));
        assert(rest.last() == plans.last());
        let (a, b, c) = (weight_product(shorter.remove(i)), weight(plans[i]), weight(plans.last()));
        assert((a * b) * c == (a * c) * b) by (nonlinear_arith);
    }
}

/// A branch of a union is at most as heavy as all of them together.
pub proof fn lemma_item_weight(plans: Seq<Plan>, i: int)
    requires
        0 <= i < plans.len(),
    ensures
        weight(plans[i]) <= total_weight(plans),
{
    lemma_product_without(plans, i);
}

pub proof fn lemma_join_measure(left: Plan, right: Plan, keys: Seq<Seq<char>>)
    ensures
        depth(join(left, right, keys)) <= larger(depth(left), depth(right)),
        weight(join(left, right, keys)) <= weight(left) * weight(right),
{
    lemma_weight_positive(left);
    lemma_weight_positive(right);
    lemma_product_grows(weight(left), 1, weight(left), weight(right));
    lemma_product_grows(1, weight(right), weight(left), weight(right));
    lemma_product_grows(3, 1, weight(left), weight(right));
}

pub proof fn lemma_lateral_measure(left: Plan, right: Plan)
    ensures
        depth(lateral(left, right)) <= larger(depth(left), depth(right)),
        weight(lateral(left, right)) <= weight(left) * weight(right),
{
    lemma_weight_positive(left);
    lemma_weight_positive(right);
    lemma_product_grows(weight(left), 1, weight(left), weight(right));
    lemma_product_grows(1, weight(right), weight(left), weight(right));
    lemma_product_grows(3, 1, weight(left), weight(right));
}

pub proof fn lemma_left_join_measure(
    left: Plan,
    right: Plan,
    expression: Expr,
    keys: Seq<Seq<char>>,
)
    ensures
        depth(left_join(left, right, expression, keys)) <= larger(
            larger(depth(left), depth(right)),
            expr_depth(expression),
        ),
        weight(left_join(left, right, expression, keys)) <= left_weight(left) * (weight(right) + 1),
{
    lemma_weight_positive(left);
    lemma_weight_positive(right);
    assert(expr_depth(truth(true)) == 0);
    if is_empty_singleton(left) {
        lemma_product_grows(1, 4, left_weight(left), weight(right) + 1);
    } else {
        lemma_product_grows(weight(left), 1, left_weight(left), weight(right) + 1);
    }
}

pub proof fn lemma_minus_measure(left: Plan, right: Plan, keys: Seq<Seq<char>>)
    ensures
        depth(minus(left, right, keys)) <= larger(depth(left), depth(right)),
        weight(minus(left, right, keys)) <= weight(left) + weight(right),
{
    lemma_weight_positive(left);
    lemma_weight_positive(right);
}

/// The conjuncts of some expressions are not deeper than the expressions.
proof fn lemma_conjuncts_depth(expressions: Seq<Expr>, most: nat)
    requires
        exprs_depth(expressions) <= most,
    ensures
        exprs_depth(all_conjuncts(expressions)) <= most,
        exprs_depth(all_disjuncts(expressions)) <= most,
    decreases expressions.len(),
{
    lemma_exprs_depth(all_conjuncts(expressions), most);
    lemma_exprs_depth(all_disjuncts(expressions), most);
    if expressions.len() > 0 {
        let shorter = expressions.drop_last();
        let last = expressions.last();
        lemma_conjuncts_depth(shorter, most);
        assert(expr_depth(last) <= most);
        let (a, b) = (all_conjuncts(shorter), conjuncts(last));
        let (c, d) = (all_disjuncts(shorter), disjuncts(last));
        lemma_exprs_depth(a, most);
        lemma_exprs_depth(b, most);
        lemma_exprs_depth(c, most);
        lemma_exprs_depth(d, most);
        match last {
            Expr::And(inner) | Expr::Or(inner) => {
                lemma_exprs_depth(inner, most);
            },
            _ => {},
        }
        assert forall|i: int| 0 <= i < b.len() implies expr_depth(#[trigger] b[i]) <= most by {}
        assert forall|i: int| 0 <= i < d.len() implies expr_depth(#[trigger] d[i]) <= most by {}
        assert forall|i: int| 0 <= i < (a + b).len() implies expr_depth(#[trigger] (a + b)[i])
            <= most by {
            if i < a.len() {
                assert((a + b)[i] == a[i]);
            } else {
                assert((a + b)[i] == b[i - a.len()]);
            }
        }
        assert forall|i: int| 0 <= i < (c + d).len() implies expr_depth(#[trigger] (c + d)[i])
            <= most by {
            if i < c.len() {
                assert((c + d)[i] == c[i]);
            } else {
                assert((c + d)[i] == d[i - c.len()]);
            }
        }
    }
}

pub proof fn lemma_and_or_depth(expressions: Seq<Expr>)
    ensures
        expr_depth(and_all(expressions)) <= exprs_depth(expressions),
        expr_depth(or_all(expressions)) <= exprs_depth(expressions),
{
    let most = exprs_depth(expressions);
    lemma_conjuncts_depth(expressions, most);
    lemma_exprs_depth(all_conjuncts(expressions), most);
    lemma_exprs_depth(all_disjuncts(expressions), most);
}

pub proof fn lemma_not_depth(expression: Expr)
    ensures
        expr_depth(not(expression)) <= expr_depth(expression),
{
    match expression {
        Expr::Not(inner) => {
            lemma_exprs_depth(seq![*inner], expr_depth(*inner));
        },
        _ => {},
    }
}

pub proof fn lemma_filter_measure(inner: Plan, expression: Expr)
    ensures
        depth(filter(inner, expression)) <= larger(depth(inner), expr_depth(expression)),
        weight(filter(inner, expression)) <= weight(inner) + 1,
{
    lemma_weight_positive(inner);
    let condition = without_singleton_and(expression);
    match expression {
        Expr::And(parts) => {
            lemma_exprs_depth(parts, expr_depth(expression));
        },
        _ => {},
    }
    assert(expr_depth(condition) <= expr_depth(expression));
    match inner {
        Plan::Filter { expression: nested, .. } => {
            let both = seq![condition, nested];
            lemma_and_or_depth(both);
            lemma_exprs_depth(both, larger(expr_depth(condition), expr_depth(nested)));
        },
        _ => {},
    }
}

/// What the branches of a union weigh, and how deep they are.
proof fn lemma_branches_measure(plans: Seq<Plan>)
    ensures
        max_depth(all_branches(plans)) <= max_depth(plans),
        total_weight(all_branches(plans)) <= total_weight(plans),
    decreases plans.len(),
{
    if plans.len() > 0 {
        let shorter = plans.drop_last();
        let last = plans.last();
        lemma_branches_measure(shorter);
        lemma_weight_positive(last);
        let added = branches(last);
        lemma_single_measure(last);
        assert(max_depth(added) <= depth(last) && total_weight(added) <= weight(last));
        lemma_concat_depth(all_branches(shorter), added, max_depth(plans));
        lemma_concat_weight(all_branches(shorter), added);
    }
}

pub proof fn lemma_union_measure(plans: Seq<Plan>)
    ensures
        depth(union_all(plans)) <= max_depth(plans),
        weight(union_all(plans)) <= total_weight(plans) + 3,
{
    lemma_branches_measure(plans);
}

pub proof fn lemma_single_measure(plan: Plan)
    ensures
        max_depth(seq![plan]) == depth(plan),
        total_weight(seq![plan]) == weight(plan),
        weight_product(seq![plan]) == weight(plan),
{
    let none = Seq::<Plan>::empty();
    assert(max_depth(none) == 0 && total_weight(none) == 0 && weight_product(none) == 1);
    lemma_push_measure(none, plan);
    assert(none.push(plan) =~= seq![plan]);
    assert(1 * weight(plan) == weight(plan)) by (nonlinear_arith);
}

pub proof fn lemma_pair_measure(first: Plan, second: Plan)
    ensures
        max_depth(seq![first, second]) == larger(depth(first), depth(second)),
        total_weight(seq![first, second]) == weight(first) + weight(second),
        weight_product(seq![first, second]) == weight(first) * weight(second),
{
    lemma_single_measure(first);
    lemma_push_measure(seq![first], second);
    assert(seq![first].push(second) =~= seq![first, second]);
}

pub proof fn lemma_push_measure(plans: Seq<Plan>, last: Plan)
    ensures
        max_depth(plans.push(last)) == larger(max_depth(plans), depth(last)),
        total_weight(plans.push(last)) == total_weight(plans) + weight(last),
        weight_product(plans.push(last)) == weight_product(plans) * weight(last),
{
    assert(plans.push(last).drop_last() =~= plans);
}

/// The operators with one operand add at most one to the weight and keep the depth.
pub proof fn lemma_unary_measure(inner: Plan)
    ensures
        forall|variable: Seq<char>, expression: Expr| #[trigger]
            depth(extend(inner, variable, expression)) <= larger(
                depth(inner),
                expr_depth(expression),
            ),
        forall|variable: Seq<char>, expression: Expr| #[trigger]
            weight(extend(inner, variable, expression)) <= weight(inner) + 1,
        forall|criteria: Seq<OrderExpr>| #[trigger]
            depth(order_by(inner, criteria)) <= larger(depth(inner), orders_depth(criteria)),
        forall|criteria: Seq<OrderExpr>| #[trigger]
            weight(order_by(inner, criteria)) <= weight(inner) + 1,
        forall|variables: Seq<Seq<char>>| #[trigger]
            depth(project(inner, variables)) <= depth(inner),
        forall|variables: Seq<Seq<char>>| #[trigger]
            weight(project(inner, variables)) <= weight(inner) + 1,
        depth(distinct(inner)) <= depth(inner),
        weight(distinct(inner)) <= weight(inner) + 1,
        depth(reduced(inner)) <= depth(inner),
        weight(reduced(inner)) <= weight(inner) + 1,
        forall|start: usize, length: Option<usize>| #[trigger]
            depth(slice(inner, start, length)) <= depth(inner),
        forall|start: usize, length: Option<usize>| #[trigger]
            weight(slice(inner, start, length)) <= weight(inner) + 1,
        forall|variables: Seq<Seq<char>>, aggregates: Seq<(Seq<char>, AggregateExpr)>| #[trigger]
            depth(group(inner, variables, aggregates)) <= larger(
                depth(inner),
                aggregates_depth(aggregates),
            ),
        forall|variables: Seq<Seq<char>>, aggregates: Seq<(Seq<char>, AggregateExpr)>| #[trigger]
            weight(group(inner, variables, aggregates)) <= weight(inner) + 1,
{
    lemma_weight_positive(inner);
}

} // verus!
