//! Normalization: everything that can be decided from the types of the
//! variables is decided, nested unions and filters are merged, and joins keep
//! nothing of the order and the keys that they had.

use vstd::prelude::*;

use crate::algebra::{
    exprs_view, orders_view, plans_view, Expr, Expression, GraphPattern, OrderExpr, OrderExpression,
    Plan,
};
use crate::arrange::{arrange_join, arranged};
use crate::builders::{
    and_all, distinct, empty, equal, exists_plan, extend, filter, group, if_cond, lateral,
    left_join, minus, not, or_all, order_by, project, reduced, same_term, slice, truth, union_all,
    values,
};
use crate::factors::{factor_common, factor_common_join_factors_from_union, join_factors};
use crate::type_inference::{
    infer, infer_expr, infer_expression_type, infer_graph_pattern_types, intersect, type_of, Types,
    VariableType, VariableTypes,
};

verus! {

/// A plan without what the types of the variables decide, and with the operands
/// of its joins in one order.
pub open spec fn normalize(plan: Plan, types: Types) -> Plan
    decreases plan,
{
    match plan {
        Plan::QuadPattern { .. } | Plan::Path { .. } | Plan::Graph { .. } => plan,
        Plan::Join { left, right, .. } => arranged(
            join_factors(normalize(*left, types)) + join_factors(normalize(*right, types)),
        ),
        Plan::LeftJoin { left, right, expression, keys } => {
            let new_left = normalize(*left, types);
            let new_right = normalize(*right, types);
            let inner_types = intersect(infer(new_left, types), infer(new_right, types));
            left_join(new_left, new_right, normalize_expr(expression, inner_types), keys)
        },
        Plan::Lateral { left, right } => {
            let new_left = normalize(*left, types);
            lateral(new_left, normalize(*right, infer(new_left, types)))
        },
        Plan::Filter { inner, expression } => {
            let new_inner = normalize(*inner, types);
            let inner_types = infer(new_inner, types);
            let condition = normalize_expr(expression, inner_types);
            if infer_expr(condition, inner_types) == VariableType::of_undef() {
                empty()
            } else {
                filter(new_inner, condition)
            }
        },
        Plan::Union { inner } => match union_all(normalize_all(inner, types)) {
            Plan::Union { inner: all } => factor_common(all),
            other => other,
        },
        Plan::Extend { inner, variable, expression } => {
            let new_inner = normalize(*inner, types);
            let inner_types = infer(new_inner, types);
            let value = normalize_expr(expression, inner_types);
            if infer_expr(value, inner_types) == VariableType::of_undef() {
                new_inner
            } else {
                extend(new_inner, variable, value)
            }
        },
        Plan::Minus { left, right, keys } => minus(
            normalize(*left, types),
            normalize(*right, types),
            keys,
        ),
        Plan::Values { variables, bindings } => values(variables, bindings),
        Plan::OrderBy { inner, expression } => {
            let new_inner = normalize(*inner, types);
            order_by(new_inner, normalize_orders(expression, infer(new_inner, types)))
        },
        Plan::Project { inner, variables } => project(normalize(*inner, types), variables),
        Plan::Distinct { inner } => distinct(normalize(*inner, types)),
        Plan::Reduced { inner } => reduced(normalize(*inner, types)),
        Plan::Slice { inner, start, length } => slice(normalize(*inner, types), start, length),
        Plan::Group { inner, variables, aggregates } => group(
            normalize(*inner, types),
            variables,
            aggregates,
        ),
        Plan::Service { .. } => plan,
    }
}

pub open spec fn normalize_all(plans: Seq<Plan>, types: Types) -> Seq<Plan>
    decreases plans,
{
    Seq::new(
        plans.len(),
        |i: int|
            if 0 <= i < plans.len() {
                normalize(plans[i], types)
            } else {
                arbitrary()
            },
    )
}

pub open spec fn normalize_order(criterion: OrderExpr, types: Types) -> OrderExpr
    decreases criterion,
{
    match criterion {
        OrderExpr::Asc(expression) => OrderExpr::Asc(normalize_expr(expression, types)),
        OrderExpr::Desc(expression) => OrderExpr::Desc(normalize_expr(expression, types)),
    }
}

pub open spec fn normalize_orders(criteria: Seq<OrderExpr>, types: Types) -> Seq<OrderExpr>
    decreases criteria,
{
    Seq::new(
        criteria.len(),
        |i: int|
            if 0 <= i < criteria.len() {
                normalize_order(criteria[i], types)
            } else {
                arbitrary()
            },
    )
}

/// Equality of two values of the given types: identity unless both can be
/// literals or both can be triples.
pub open spec fn typed_equal(
    left: Expr,
    left_type: VariableType,
    right: Expr,
    right_type: VariableType,
) -> Expr {
    if left_type.literal && right_type.literal || left_type.triple && right_type.triple {
        equal(left, right)
    } else {
        same_term(left, right)
    }
}

/// Whether a variable has a value, as far as its type decides it.
pub open spec fn typed_bound(variable: Seq<char>, t: VariableType) -> Expr {
    if !t.undef {
        truth(true)
    } else if t == VariableType::of_undef() {
        truth(false)
    } else {
        Expr::Bound(variable)
    }
}

/// An expression without what the types of the variables decide.
pub open spec fn normalize_expr(expression: Expr, types: Types) -> Expr
    decreases expression,
{
    match expression {
        Expr::NamedNode(_) | Expr::Literal(_) | Expr::Variable(_) => expression,
        Expr::Or(inner) => or_all(normalize_exprs(inner, types)),
        Expr::And(inner) => and_all(normalize_exprs(inner, types)),
        Expr::Equal(left, right) => {
            let new_left = normalize_expr(*left, types);
            let new_right = normalize_expr(*right, types);
            typed_equal(
                new_left,
                infer_expr(new_left, types),
                new_right,
                infer_expr(new_right, types),
            )
        },
        Expr::SameTerm(left, right) => same_term(
            normalize_expr(*left, types),
            normalize_expr(*right, types),
        ),
        Expr::Greater(left, right) => Expr::Greater(
            Box::new(normalize_expr(*left, types)),
            Box::new(normalize_expr(*right, types)),
        ),
        Expr::GreaterOrEqual(left, right) => Expr::GreaterOrEqual(
            Box::new(normalize_expr(*left, types)),
            Box::new(normalize_expr(*right, types)),
        ),
        Expr::Less(left, right) => Expr::Less(
            Box::new(normalize_expr(*left, types)),
            Box::new(normalize_expr(*right, types)),
        ),
        Expr::LessOrEqual(left, right) => Expr::LessOrEqual(
            Box::new(normalize_expr(*left, types)),
            Box::new(normalize_expr(*right, types)),
        ),
        Expr::Add(left, right) => Expr::Add(
            Box::new(normalize_expr(*left, types)),
            Box::new(normalize_expr(*right, types)),
        ),
        Expr::Subtract(left, right) => Expr::Subtract(
            Box::new(normalize_expr(*left, types)),
            Box::new(normalize_expr(*right, types)),
        ),
        Expr::Multiply(left, right) => Expr::Multiply(
            Box::new(normalize_expr(*left, types)),
            Box::new(normalize_expr(*right, types)),
        ),
        Expr::Divide(left, right) => Expr::Divide(
            Box::new(normalize_expr(*left, types)),
            Box::new(normalize_expr(*right, types)),
        ),
        Expr::UnaryPlus(inner) => Expr::UnaryPlus(Box::new(normalize_expr(*inner, types))),
        Expr::UnaryMinus(inner) => Expr::UnaryMinus(Box::new(normalize_expr(*inner, types))),
        Expr::Not(inner) => not(normalize_expr(*inner, types)),
        Expr::Exists(inner) => exists_plan(normalize(*inner, types)),
        Expr::Bound(variable) => typed_bound(variable, type_of(types, variable)),
        Expr::If(condition, then_case, else_case) => if_cond(
            normalize_expr(*condition, types),
            normalize_expr(*then_case, types),
            normalize_expr(*else_case, types),
        ),
        Expr::Coalesce(inner) => Expr::Coalesce(normalize_exprs(inner, types)),
        Expr::FunctionCall(name, arguments) => Expr::FunctionCall(
            name,
            normalize_exprs(arguments, types),
        ),
    }
}

pub open spec fn normalize_exprs(expressions: Seq<Expr>, types: Types) -> Seq<Expr>
    decreases expressions,
{
    Seq::new(
        expressions.len(),
        |i: int|
            if 0 <= i < expressions.len() {
                normalize_expr(expressions[i], types)
            } else {
                arbitrary()
            },
    )
}

fn normalize_patterns(patterns: Vec<GraphPattern>, input_types: &VariableTypes) -> (r: Vec<
    GraphPattern,
>)
    ensures
        plans_view(r@) == normalize_all(plans_view(patterns@), input_types@),
    decreases patterns,
{
    let ghost given = plans_view(patterns@);
    let ghost whole = patterns;
    let mut result: Vec<GraphPattern> = Vec::new();
    for pattern in it: patterns
        invariant
            it.seq() == whole@,
            whole == patterns,
            given == plans_view(whole@),
            result@.len() == it.index(),
            forall|j: int|
                0 <= j < it.index() ==> (#[trigger] result@[j])@ == normalize(
                    given[j],
                    input_types@,
                ),
    {
        proof {
            let n = it.index() as int;
            assert(pattern == whole@[n]);
            assert(given[n] == pattern@);
            assert(decreases_to!(whole => whole@[n]));
        }
        result.push(normalize_pattern(pattern, input_types));
    }
    assert(plans_view(result@) =~= normalize_all(given, input_types@));
    result
}

fn normalize_criteria(criteria: Vec<OrderExpression>, types: &VariableTypes) -> (r: Vec<
    OrderExpression,
>)
    ensures
        orders_view(r@) == normalize_orders(orders_view(criteria@), types@),
    decreases criteria,
{
    let ghost given = orders_view(criteria@);
    let ghost whole = criteria;
    let mut result: Vec<OrderExpression> = Vec::new();
    for criterion in it: criteria
        invariant
            it.seq() == whole@,
            whole == criteria,
            given == orders_view(whole@),
            result@.len() == it.index(),
            forall|j: int|
                0 <= j < it.index() ==> (#[trigger] result@[j])@ == normalize_order(
                    given[j],
                    types@,
                ),
    {
        proof {
            let n = it.index() as int;
            assert(criterion == whole@[n]);
            assert(given[n] == criterion@);
            assert(decreases_to!(whole => whole@[n]));
        }
        let normalized = match criterion {
            OrderExpression::Asc(expression) => {
                assert(decreases_to!(criterion => expression));
                OrderExpression::Asc(normalize_expression(expression, types))
            },
            OrderExpression::Desc(expression) => {
                assert(decreases_to!(criterion => expression));
                OrderExpression::Desc(normalize_expression(expression, types))
            },
        };
        result.push(normalized);
    }
    assert(orders_view(result@) =~= normalize_orders(given, types@));
    result
}

fn normalize_expressions(expressions: Vec<Expression>, types: &VariableTypes) -> (r: Vec<
    Expression,
>)
    ensures
        exprs_view(r@) == normalize_exprs(exprs_view(expressions@), types@),
    decreases expressions,
{
    let ghost given = exprs_view(expressions@);
    let ghost whole = expressions;
    let mut result: Vec<Expression> = Vec::new();
    for expression in it: expressions
        invariant
            it.seq() == whole@,
            whole == expressions,
            given == exprs_view(whole@),
            result@.len() == it.index(),
            forall|j: int|
                0 <= j < it.index() ==> (#[trigger] result@[j])@ == normalize_expr(
                    given[j],
                    types@,
                ),
    {
        proof {
            let n = it.index() as int;
            assert(expression == whole@[n]);
            assert(given[n] == expression@);
            assert(decreases_to!(whole => whole@[n]));
        }
        result.push(normalize_expression(expression, types));
    }
    assert(exprs_view(result@) =~= normalize_exprs(given, types@));
    result
}

/// Normalizes a pattern, where the variables have the given types, and discards
/// any join ordering information.
pub fn normalize_pattern(pattern: GraphPattern, input_types: &VariableTypes) -> (r: GraphPattern)
    ensures
        r@ == normalize(pattern@, input_types@),
    decreases pattern,
{
    match pattern {
        GraphPattern::QuadPattern { subject, predicate, object, graph_name } => {
            GraphPattern::QuadPattern { subject, predicate, object, graph_name }
        },
        GraphPattern::Path { subject, path, object, graph_name } => GraphPattern::Path {
            subject,
            path,
            object,
            graph_name,
        },
        GraphPattern::Graph { graph_name } => GraphPattern::Graph { graph_name },
        GraphPattern::Join { left, right, .. } => arrange_join(
            normalize_pattern(*left, input_types),
            normalize_pattern(*right, input_types),
        ),
        GraphPattern::LeftJoin { left, right, expression, algorithm } => {
            let left = normalize_pattern(*left, input_types);
            let right = normalize_pattern(*right, input_types);
            let left_types = infer_graph_pattern_types(&left, input_types.clone());
            let right_types = infer_graph_pattern_types(&right, input_types.clone());
            let inner_types = left_types.intersect_with(right_types);
            GraphPattern::left_join(
                left,
                right,
                normalize_expression(expression, &inner_types),
                algorithm,
            )
        },
        GraphPattern::Lateral { left, right } => {
            let left = normalize_pattern(*left, input_types);
            let left_types = infer_graph_pattern_types(&left, input_types.clone());
            let right = normalize_pattern(*right, &left_types);
            GraphPattern::lateral(left, right)
        },
        GraphPattern::Filter { inner, expression } => {
            let inner = normalize_pattern(*inner, input_types);
            let inner_types = infer_graph_pattern_types(&inner, input_types.clone());
            let expression = normalize_expression(expression, &inner_types);
            if infer_expression_type(&expression, &inner_types) == VariableType::of_undef() {
                GraphPattern::empty()
            } else {
                GraphPattern::filter(inner, expression)
            }
        },
        GraphPattern::Union { inner } => {
            let flattened = GraphPattern::union_all(normalize_patterns(inner, input_types));
            match flattened {
                GraphPattern::Union { inner } => factor_common_join_factors_from_union(inner),
                other => other,
            }
        },
        GraphPattern::Extend { inner, variable, expression } => {
            let inner = normalize_pattern(*inner, input_types);
            let inner_types = infer_graph_pattern_types(&inner, input_types.clone());
            let expression = normalize_expression(expression, &inner_types);
            if infer_expression_type(&expression, &inner_types) == VariableType::of_undef() {
                inner
            } else {
                GraphPattern::extend(inner, variable, expression)
            }
        },
        GraphPattern::Minus { left, right, algorithm } => GraphPattern::minus(
            normalize_pattern(*left, input_types),
            normalize_pattern(*right, input_types),
            algorithm,
        ),
        GraphPattern::Values { variables, bindings } => GraphPattern::values(variables, bindings),
        GraphPattern::OrderBy { inner, expression } => {
            let inner = normalize_pattern(*inner, input_types);
            let inner_types = infer_graph_pattern_types(&inner, input_types.clone());
            GraphPattern::order_by(inner, normalize_criteria(expression, &inner_types))
        },
        GraphPattern::Project { inner, variables } => GraphPattern::project(
            normalize_pattern(*inner, input_types),
            variables,
        ),
        GraphPattern::Distinct { inner } => GraphPattern::distinct(
            normalize_pattern(*inner, input_types),
        ),
        GraphPattern::Reduced { inner } => GraphPattern::reduced(
            normalize_pattern(*inner, input_types),
        ),
        GraphPattern::Slice { inner, start, length } => GraphPattern::slice(
            normalize_pattern(*inner, input_types),
            start,
            length,
        ),
        GraphPattern::Group { inner, variables, aggregates } => GraphPattern::group(
            normalize_pattern(*inner, input_types),
            variables,
            aggregates,
        ),
        // The remote endpoint optimizes its own queries.
        GraphPattern::Service { name, inner, silent } => GraphPattern::Service {
            name,
            inner,
            silent,
        },
    }
}

/// Normalizes an expression, where the variables have the given types.
pub fn normalize_expression(expression: Expression, types: &VariableTypes) -> (r: Expression)
    ensures
        r@ == normalize_expr(expression@, types@),
    decreases expression,
{
    match expression {
        Expression::NamedNode(node) => node.into(),
        Expression::Literal(literal) => literal.into(),
        Expression::Variable(variable) => variable.into(),
        Expression::Or(inner) => Expression::or_all(normalize_expressions(inner, types)),
        Expression::And(inner) => Expression::and_all(normalize_expressions(inner, types)),
        Expression::Equal(left, right) => {
            let left = normalize_expression(*left, types);
            let left_type = infer_expression_type(&left, types);
            let right = normalize_expression(*right, types);
            let right_type = infer_expression_type(&right, types);
            if left_type.literal && right_type.literal || left_type.triple && right_type.triple {
                Expression::equal(left, right)
            } else {
                Expression::same_term(left, right)
            }
        },
        Expression::SameTerm(left, right) => Expression::same_term(
            normalize_expression(*left, types),
            normalize_expression(*right, types),
        ),
        Expression::Greater(left, right) => Expression::Greater(
            Box::new(normalize_expression(*left, types)),
            Box::new(normalize_expression(*right, types)),
        ),
        Expression::GreaterOrEqual(left, right) => Expression::GreaterOrEqual(
            Box::new(normalize_expression(*left, types)),
            Box::new(normalize_expression(*right, types)),
        ),
        Expression::Less(left, right) => Expression::Less(
            Box::new(normalize_expression(*left, types)),
            Box::new(normalize_expression(*right, types)),
        ),
        Expression::LessOrEqual(left, right) => Expression::LessOrEqual(
            Box::new(normalize_expression(*left, types)),
            Box::new(normalize_expression(*right, types)),
        ),
        Expression::Add(left, right) => Expression::Add(
            Box::new(normalize_expression(*left, types)),
            Box::new(normalize_expression(*right, types)),
        ),
        Expression::Subtract(left, right) => Expression::Subtract(
            Box::new(normalize_expression(*left, types)),
            Box::new(normalize_expression(*right, types)),
        ),
        Expression::Multiply(left, right) => Expression::Multiply(
            Box::new(normalize_expression(*left, types)),
            Box::new(normalize_expression(*right, types)),
        ),
        Expression::Divide(left, right) => Expression::Divide(
            Box::new(normalize_expression(*left, types)),
            Box::new(normalize_expression(*right, types)),
        ),
        Expression::UnaryPlus(inner) => Expression::UnaryPlus(
            Box::new(normalize_expression(*inner, types)),
        ),
        Expression::UnaryMinus(inner) => Expression::UnaryMinus(
            Box::new(normalize_expression(*inner, types)),
        ),
        Expression::Not(inner) => Expression::negate(normalize_expression(*inner, types)),
        Expression::Exists(inner) => Expression::exists_pattern(normalize_pattern(*inner, types)),
        Expression::Bound(variable) => {
            let t = types.get(&variable);
            if !t.undef {
                Expression::boolean(true)
            } else if t == VariableType::of_undef() {
                Expression::boolean(false)
            } else {
                Expression::Bound(variable)
            }
        },
        Expression::If(condition, then_case, else_case) => Expression::if_cond(
            normalize_expression(*condition, types),
            normalize_expression(*then_case, types),
            normalize_expression(*else_case, types),
        ),
        Expression::Coalesce(inner) => Expression::Coalesce(normalize_expressions(inner, types)),
        Expression::FunctionCall(name, arguments) => Expression::FunctionCall(
            name,
            normalize_expressions(arguments, types),
        ),
    }
}

} // verus!
