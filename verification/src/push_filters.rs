//! Moving filters down to where their variables get their values.

use vstd::prelude::*;

use crate::algebra::{
    clone_all_expressions, exprs_view, plans_view, Expr, Expression, GraphPattern, Plan,
};
use crate::builders::{
    and_all, distinct, extend, filter, group, join, known_truth, lateral, left_join, minus,
    order_by, project, reduced, slice, truth, union_all,
};
use crate::lookups::{
    all_bound, are_all_expression_variables_bound, are_no_expression_variables_bound, none_bound,
};
use crate::term::{contains_variable, names, Variable};
use crate::type_inference::{infer, infer_graph_pattern_types, Types, VariableTypes};
use crate::variables::expr_variables;

verus! {

/// The filters whose variables all have a value.
pub open spec fn bound_filters(filters: Seq<Expr>, types: Types) -> Seq<Expr> {
    filters.filter(|f: Expr| all_bound(f, types))
}

/// The filters with a variable that may have no value.
pub open spec fn open_filters(filters: Seq<Expr>, types: Types) -> Seq<Expr> {
    filters.filter(|f: Expr| !all_bound(f, types))
}

/// The filters that neither of two sides binds.
pub open spec fn doubly_open_filters(filters: Seq<Expr>, left: Types, right: Types) -> Seq<Expr> {
    filters.filter(|f: Expr| !all_bound(f, left) && !all_bound(f, right))
}

/// The filters that use a variable.
pub open spec fn filters_with(filters: Seq<Expr>, variable: Seq<char>) -> Seq<Expr> {
    filters.filter(|f: Expr| expr_variables(f).contains(variable))
}

/// The filters that do not use a variable.
pub open spec fn filters_without(filters: Seq<Expr>, variable: Seq<char>) -> Seq<Expr> {
    filters.filter(|f: Expr| !expr_variables(f).contains(variable))
}

/// A condition together with further filters.
pub open spec fn added_filters(filters: Seq<Expr>, expression: Expr) -> Seq<Expr> {
    match expression {
        Expr::And(inner) => filters + inner,
        _ => filters.push(expression),
    }
}

/// Whether the condition of a left join can be checked on its right side.
pub open spec fn is_right_condition(expression: Expr, left: Types, right: Types) -> bool {
    known_truth(expression) is None && (all_bound(expression, right) || none_bound(
        expression,
        left,
    ))
}

/// A lateral join, with a filter of the right side moved out.
pub open spec fn lateral_filter_out(left: Plan, right: Plan) -> Plan {
    match right {
        Plan::Filter { inner, expression } => filter(lateral(left, *inner), expression),
        _ => lateral(left, right),
    }
}

/// A plan with filters moved down into it.
pub open spec fn push(plan: Plan, filters: Seq<Expr>, types: Types) -> Plan
    decreases plan,
{
    match plan {
        Plan::QuadPattern { .. }
        | Plan::Path { .. }
        | Plan::Graph { .. }
        | Plan::Values { .. }
        | Plan::Service { .. } => filter(plan, and_all(filters)),
        Plan::Join { left, right, keys } => {
            let left_types = infer(*left, types);
            let right_types = infer(*right, types);
            filter(
                join(
                    push(*left, bound_filters(filters, left_types), types),
                    push(*right, bound_filters(filters, right_types), types),
                    keys,
                ),
                and_all(doubly_open_filters(filters, left_types, right_types)),
            )
        },
        Plan::Lateral { left, right } => {
            let left_types = infer(*left, types);
            lateral_filter_out(
                push(*left, bound_filters(filters, left_types), types),
                push(*right, open_filters(filters, left_types), left_types),
            )
        },
        Plan::LeftJoin { left, right, expression, keys } => {
            let left_types = infer(*left, types);
            let moves = is_right_condition(expression, left_types, infer(*right, types));
            filter(
                left_join(
                    push(*left, bound_filters(filters, left_types), types),
                    push(
                        *right,
                        if moves {
                            seq![expression]
                        } else {
                            seq![]
                        },
                        types,
                    ),
                    if moves {
                        truth(true)
                    } else {
                        expression
                    },
                    keys,
                ),
                and_all(open_filters(filters, left_types)),
            )
        },
        Plan::Minus { left, right, keys } => minus(
            push(*left, filters, types),
            push(*right, seq![], types),
            keys,
        ),
        Plan::Extend { inner, variable, expression } => filter(
            extend(push(*inner, filters_without(filters, variable), types), variable, expression),
            and_all(filters_with(filters, variable)),
        ),
        Plan::Filter { inner, expression } => push(
            *inner,
            added_filters(filters, expression),
            types,
        ),
        Plan::Union { inner } => union_all(push_all(inner, filters, types)),
        Plan::Slice { inner, start, length } => filter(
            slice(push(*inner, seq![], types), start, length),
            and_all(filters),
        ),
        Plan::Distinct { inner } => distinct(push(*inner, filters, types)),
        Plan::Reduced { inner } => reduced(push(*inner, filters, types)),
        Plan::Project { inner, variables } => filter(
            project(push(*inner, seq![], types), variables),
            and_all(filters),
        ),
        Plan::OrderBy { inner, expression } => order_by(push(*inner, filters, types), expression),
        Plan::Group { inner, variables, aggregates } => filter(
            group(push(*inner, seq![], types), variables, aggregates),
            and_all(filters),
        ),
    }
}

pub open spec fn push_all(plans: Seq<Plan>, filters: Seq<Expr>, types: Types) -> Seq<Plan>
    decreases plans,
{
    Seq::new(
        plans.len(),
        |i: int|
            if 0 <= i < plans.len() {
                push(plans[i], filters, types)
            } else {
                arbitrary()
            },
    )
}

/// Splits the filters by whether all their variables have a value.
fn split_by_bound(filters: Vec<Expression>, types: &VariableTypes) -> (r: (
    Vec<Expression>,
    Vec<Expression>,
))
    ensures
        exprs_view(r.0@) == bound_filters(exprs_view(filters@), types@),
        exprs_view(r.1@) == open_filters(exprs_view(filters@), types@),
{
    let ghost given = exprs_view(filters@);
    let mut bound: Vec<Expression> = Vec::new();
    let mut open: Vec<Expression> = Vec::new();
    proof {
        reveal(Seq::filter);
        assert(exprs_view(bound@) =~= bound_filters(given.take(0), types@));
        assert(exprs_view(open@) =~= open_filters(given.take(0), types@));
    }
    for filter in it: filters
        invariant
            it.seq() == filters@,
            given == exprs_view(filters@),
            exprs_view(bound@) == bound_filters(given.take(it.index() as int), types@),
            exprs_view(open@) == open_filters(given.take(it.index() as int), types@),
    {
        let ghost n = it.index() as int;
        let ghost (b, o, e) = (bound@, open@, filter@);
        proof {
            reveal(Seq::filter);
            assert(given[n] == filter@);
            assert(given.take(n + 1).drop_last() =~= given.take(n));
        }
        if are_all_expression_variables_bound(&filter, types) {
            bound.push(filter);
            assert(exprs_view(bound@) =~= exprs_view(b).push(e));
        } else {
            open.push(filter);
            assert(exprs_view(open@) =~= exprs_view(o).push(e));
        }
    }
    assert(given.take(given.len() as int) =~= given);
    (bound, open)
}

/// Splits the filters into those for the left side of a join, those for the
/// right side, and those that neither side binds.
fn split_for_join(
    filters: Vec<Expression>,
    left_types: &VariableTypes,
    right_types: &VariableTypes,
) -> (r: (Vec<Expression>, Vec<Expression>, Vec<Expression>))
    ensures
        exprs_view(r.0@) == bound_filters(exprs_view(filters@), left_types@),
        exprs_view(r.1@) == bound_filters(exprs_view(filters@), right_types@),
        exprs_view(r.2@) == doubly_open_filters(
            exprs_view(filters@),
            left_types@,
            right_types@,
        ),
{
    let ghost given = exprs_view(filters@);
    let mut left_filters: Vec<Expression> = Vec::new();
    let mut right_filters: Vec<Expression> = Vec::new();
    let mut final_filters: Vec<Expression> = Vec::new();
    proof {
        reveal(Seq::filter);
        assert(exprs_view(left_filters@) =~= bound_filters(given.take(0), left_types@));
        assert(exprs_view(right_filters@) =~= bound_filters(given.take(0), right_types@));
        assert(exprs_view(final_filters@) =~= doubly_open_filters(
            given.take(0),
            left_types@,
            right_types@,
        ));
    }
    for filter in it: filters
        invariant
            it.seq() == filters@,
            given == exprs_view(filters@),
            exprs_view(left_filters@) == bound_filters(given.take(it.index() as int), left_types@),
            exprs_view(right_filters@) == bound_filters(
                given.take(it.index() as int),
                right_types@,
            ),
            exprs_view(final_filters@) == doubly_open_filters(
                given.take(it.index() as int),
                left_types@,
                right_types@,
            ),
    {
        let ghost n = it.index() as int;
        let ghost (l, r, f, e) = (left_filters@, right_filters@, final_filters@, filter@);
        proof {
            reveal(Seq::filter);
            assert(given[n] == filter@);
            assert(given.take(n + 1).drop_last() =~= given.take(n));
        }
        let push_left = are_all_expression_variables_bound(&filter, left_types);
        let push_right = are_all_expression_variables_bound(&filter, right_types);
        if push_left {
            if push_right {
                left_filters.push(filter.clone());
                right_filters.push(filter);
                assert(exprs_view(right_filters@) =~= exprs_view(r).push(e));
            } else {
                left_filters.push(filter);
            }
            assert(exprs_view(left_filters@) =~= exprs_view(l).push(e));
        } else if push_right {
            right_filters.push(filter);
            assert(exprs_view(right_filters@) =~= exprs_view(r).push(e));
        } else {
            final_filters.push(filter);
            assert(exprs_view(final_filters@) =~= exprs_view(f).push(e));
        }
    }
    assert(given.take(given.len() as int) =~= given);
    (left_filters, right_filters, final_filters)
}

/// Splits the filters by whether they use a variable: those that do not, then
/// those that do.
fn split_by_use(filters: Vec<Expression>, variable: &Variable) -> (r: (
    Vec<Expression>,
    Vec<Expression>,
))
    ensures
        exprs_view(r.0@) == filters_without(exprs_view(filters@), variable@),
        exprs_view(r.1@) == filters_with(exprs_view(filters@), variable@),
{
    let ghost given = exprs_view(filters@);
    let mut without: Vec<Expression> = Vec::new();
    let mut with: Vec<Expression> = Vec::new();
    proof {
        reveal(Seq::filter);
        assert(exprs_view(without@) =~= filters_without(given.take(0), variable@));
        assert(exprs_view(with@) =~= filters_with(given.take(0), variable@));
    }
    for filter in it: filters
        invariant
            it.seq() == filters@,
            given == exprs_view(filters@),
            exprs_view(without@) == filters_without(given.take(it.index() as int), variable@),
            exprs_view(with@) == filters_with(given.take(it.index() as int), variable@),
    {
        let ghost n = it.index() as int;
        let ghost (o, w, e) = (without@, with@, filter@);
        let used = filter.used_variables();
        proof {
            reveal(Seq::filter);
            assert(given[n] == filter@);
            assert(given.take(n + 1).drop_last() =~= given.take(n));
            assert(names(used@).to_set().contains(variable@) == names(used@).contains(variable@));
        }
        if contains_variable(&used, variable) {
            with.push(filter);
            assert(exprs_view(with@) =~= exprs_view(w).push(e));
        } else {
            without.push(filter);
            assert(exprs_view(without@) =~= exprs_view(o).push(e));
        }
    }
    assert(given.take(given.len() as int) =~= given);
    (without, with)
}

fn no_filters() -> (r: Vec<Expression>)
    ensures
        exprs_view(r@) == Seq::<Expr>::empty(),
{
    let filters: Vec<Expression> = Vec::new();
    assert(exprs_view(filters@) =~= seq![]);
    filters
}

fn push_filters_into_all(
    patterns: Vec<GraphPattern>,
    filters: &Vec<Expression>,
    input_types: &VariableTypes,
) -> (r: Vec<GraphPattern>)
    ensures
        plans_view(r@) == push_all(plans_view(patterns@), exprs_view(filters@), input_types@),
    decreases patterns,
{
    let ghost given = plans_view(patterns@);
    let ghost whole = patterns;
    let mut result: Vec<GraphPattern> = Vec::new();
    for pattern in it: patterns
        invariant
            it.seq() == whole@,
            whole == patterns,
            given == plans_view(whole@),
            result@.len() == it.index(),
            forall|j: int|
                0 <= j < it.index() ==> (#[trigger] result@[j])@ == push(
                    given[j],
                    exprs_view(filters@),
                    input_types@,
                ),
    {
        proof {
            let n = it.index() as int;
            assert(pattern == whole@[n]);
            assert(given[n] == pattern@);
            assert(decreases_to!(whole => whole@[n]));
        }
        result.push(push_filters(pattern, clone_all_expressions(filters), input_types));
    }
    assert(plans_view(result@) =~= push_all(given, exprs_view(filters@), input_types@));
    result
}

/// Moves filters down into a pattern, where the variables have the given types.
pub fn push_filters(
    pattern: GraphPattern,
    filters: Vec<Expression>,
    input_types: &VariableTypes,
) -> (r: GraphPattern)
    ensures
        r@ == push(pattern@, exprs_view(filters@), input_types@),
    decreases pattern,
{
    let ghost given = exprs_view(filters@);
    match pattern {
        GraphPattern::Join { left, right, algorithm } => {
            let left_types = infer_graph_pattern_types(&left, input_types.clone());
            let right_types = infer_graph_pattern_types(&right, input_types.clone());
            let (left_filters, right_filters, final_filters) = split_for_join(
                filters,
                &left_types,
                &right_types,
            );
            GraphPattern::filter(
                GraphPattern::join(
                    push_filters(*left, left_filters, input_types),
                    push_filters(*right, right_filters, input_types),
                    algorithm,
                ),
                Expression::and_all(final_filters),
            )
        },
        GraphPattern::Lateral { left, right } => {
            let left_types = infer_graph_pattern_types(&left, input_types.clone());
            let (left_filters, right_filters) = split_by_bound(filters, &left_types);
            let left = push_filters(*left, left_filters, input_types);
            let right = push_filters(*right, right_filters, &left_types);
            match right {
                // A filter after the lateral join is better than one inside its right side.
                GraphPattern::Filter { inner, expression } => GraphPattern::filter(
                    GraphPattern::lateral(left, *inner),
                    expression,
                ),
                other => GraphPattern::lateral(left, other),
            }
        },
        GraphPattern::LeftJoin { left, right, expression, algorithm } => {
            let left_types = infer_graph_pattern_types(&left, input_types.clone());
            let right_types = infer_graph_pattern_types(&right, input_types.clone());
            let (left_filters, final_filters) = split_by_bound(filters, &left_types);
            let mut right_filters = no_filters();
            let ghost condition = expression@;
            let expression = if expression.effective_boolean_value().is_none() && (
            are_all_expression_variables_bound(&expression, &right_types)
                || are_no_expression_variables_bound(&expression, &left_types)) {
                right_filters.push(expression);
                assert(exprs_view(right_filters@) =~= seq![condition]);
                Expression::boolean(true)
            } else {
                expression
            };
            GraphPattern::filter(
                GraphPattern::left_join(
                    push_filters(*left, left_filters, input_types),
                    push_filters(*right, right_filters, input_types),
                    expression,
                    algorithm,
                ),
                Expression::and_all(final_filters),
            )
        },
        GraphPattern::Minus { left, right, algorithm } => GraphPattern::minus(
            push_filters(*left, filters, input_types),
            push_filters(*right, no_filters(), input_types),
            algorithm,
        ),
        GraphPattern::Extend { inner, expression, variable } => {
            let (inner_filters, final_filters) = split_by_use(filters, &variable);
            GraphPattern::filter(
                GraphPattern::extend(
                    push_filters(*inner, inner_filters, input_types),
                    variable,
                    expression,
                ),
                Expression::and_all(final_filters),
            )
        },
        GraphPattern::Filter { inner, expression } => {
            let mut filters = filters;
            match expression {
                Expression::And(expressions) => {
                    let mut expressions = expressions;
                    let ghost added = exprs_view(expressions@);
                    filters.append(&mut expressions);
                    assert(exprs_view(filters@) =~= given + added);
                },
                other => {
                    let ghost added = other@;
                    filters.push(other);
                    assert(exprs_view(filters@) =~= given.push(added));
                },
            }
            push_filters(*inner, filters, input_types)
        },
        GraphPattern::Union { inner } => GraphPattern::union_all(
            push_filters_into_all(inner, &filters, input_types),
        ),
        GraphPattern::Slice { inner, start, length } => GraphPattern::filter(
            GraphPattern::slice(push_filters(*inner, no_filters(), input_types), start, length),
            Expression::and_all(filters),
        ),
        GraphPattern::Distinct { inner } => GraphPattern::distinct(
            push_filters(*inner, filters, input_types),
        ),
        GraphPattern::Reduced { inner } => GraphPattern::reduced(
            push_filters(*inner, filters, input_types),
        ),
        // Below a projection an EXISTS could see variables that are projected away.
        GraphPattern::Project { inner, variables } => GraphPattern::filter(
            GraphPattern::project(push_filters(*inner, no_filters(), input_types), variables),
            Expression::and_all(filters),
        ),
        GraphPattern::OrderBy { inner, expression } => GraphPattern::order_by(
            push_filters(*inner, filters, input_types),
            expression,
        ),
        GraphPattern::Group { inner, variables, aggregates } => GraphPattern::filter(
            GraphPattern::group(
                push_filters(*inner, no_filters(), input_types),
                variables,
                aggregates,
            ),
            Expression::and_all(filters),
        ),
        // A silent remote call that fails has one solution, so its filters stay outside.
        other => GraphPattern::filter(other, Expression::and_all(filters)),
    }
}

} // verus!
