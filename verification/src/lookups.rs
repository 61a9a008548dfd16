//! What the heuristics look for in patterns and expressions.

use vstd::prelude::*;

use crate::algebra::{
    exprs_view, orders_view, plans_view, Expr, Expression, GraphPattern, OrderExpr, OrderExpression,
    PathExpr, Plan, PropertyPathExpression,
};
use crate::estimate::{
    estimate_graph_pattern_size, is_term_pattern_bound, plan_size,
    rdfs_subclass_of_kleene_transitive_path_bound_endpoint, smaller, subclass_endpoint, term_bound,
    TransitivePathBoundEndpoint,
};
use crate::limits::Limits;
use crate::term::{names, GroundTermPattern, TermPatternView, Variable};
use crate::type_inference::{
    infer, infer_graph_pattern_types, type_of, Types, VariableType, VariableTypes,
};
use crate::variables::{expr_variables, plan_variables};

verus! {

/// Whether a variable always has a value on both sides of a join and is not
/// already fixed from outside.
pub open spec fn is_key(entry: (Seq<char>, VariableType), right: Types, input: Types) -> bool {
    !entry.1.undef && !type_of(right, entry.0).undef && type_of(input, entry.0).undef
}

/// The variables on which two sides are joined.
pub open spec fn join_keys(left: Types, right: Types, input: Types) -> Seq<Seq<char>> {
    left.filter(|entry: (Seq<char>, VariableType)| is_key(entry, right, input)).map_values(
        |entry: (Seq<char>, VariableType)| entry.0,
    )
}

/// Whether there is a variable on which two sides are joined.
pub open spec fn have_common_variable(left: Types, right: Types, input: Types) -> bool {
    exists|i: int| 0 <= i < left.len() && is_key(#[trigger] left[i], right, input)
}

/// Whether every variable of an expression has a value.
pub open spec fn all_bound(expression: Expr, types: Types) -> bool {
    forall|v: Seq<char>| #[trigger]
        expr_variables(expression).contains(v) ==> !type_of(types, v).undef
}

/// Whether no variable of an expression can have a value.
pub open spec fn none_bound(expression: Expr, types: Types) -> bool {
    forall|v: Seq<char>| #[trigger]
        expr_variables(expression).contains(v) ==> type_of(types, v) == VariableType::of_undef()
}

/// The variables of a plan that can have a value from outside.
pub open spec fn outer_variables(plan: Plan, types: Types) -> Set<Seq<char>> {
    plan_variables(plan).filter(
        |v: Seq<char>| type_of(types, v) != VariableType::of_undef(),
    )
}

/// Whether a plan has a repeated subclass step somewhere.
pub open spec fn has_subclass_path(plan: Plan) -> bool
    decreases plan,
{
    match plan {
        Plan::Path { path, .. } => subclass_endpoint(path) is Some,
        Plan::Join { left, right, .. }
        | Plan::LeftJoin { left, right, .. }
        | Plan::Minus { left, right, .. }
        | Plan::Lateral { left, right } => has_subclass_path(*left) || has_subclass_path(*right),
        Plan::Filter { inner, expression } | Plan::Extend { inner, expression, .. } => {
            has_subclass_path(*inner) || expr_has_subclass_path(expression)
        },
        Plan::OrderBy { inner, expression } => {
            has_subclass_path(*inner) || any_order_has_subclass_path(expression)
        },
        Plan::Project { inner, .. }
        | Plan::Distinct { inner }
        | Plan::Reduced { inner }
        | Plan::Slice { inner, .. }
        | Plan::Group { inner, .. }
        | Plan::Service { inner, .. } => has_subclass_path(*inner),
        Plan::Union { inner } => any_has_subclass_path(inner),
        Plan::QuadPattern { .. } | Plan::Values { .. } | Plan::Graph { .. } => false,
    }
}

pub open spec fn order_has_subclass_path(criterion: OrderExpr) -> bool
    decreases criterion,
{
    match criterion {
        OrderExpr::Asc(expression) | OrderExpr::Desc(expression) => expr_has_subclass_path(
            expression,
        ),
    }
}

pub open spec fn expr_has_subclass_path(expression: Expr) -> bool
    decreases expression,
{
    match expression {
        Expr::NamedNode(_) | Expr::Literal(_) | Expr::Variable(_) | Expr::Bound(_) => false,
        Expr::Or(inner)
        | Expr::And(inner)
        | Expr::Coalesce(inner)
        | Expr::FunctionCall(_, inner) => any_expr_has_subclass_path(inner),
        Expr::Equal(left, right)
        | Expr::SameTerm(left, right)
        | Expr::Greater(left, right)
        | Expr::GreaterOrEqual(left, right)
        | Expr::Less(left, right)
        | Expr::LessOrEqual(left, right)
        | Expr::Add(left, right)
        | Expr::Subtract(left, right)
        | Expr::Multiply(left, right)
        | Expr::Divide(left, right) => expr_has_subclass_path(*left) || expr_has_subclass_path(
            *right,
        ),
        Expr::UnaryPlus(inner) | Expr::UnaryMinus(inner) | Expr::Not(inner) => {
            expr_has_subclass_path(*inner)
        },
        Expr::Exists(inner) => has_subclass_path(*inner),
        Expr::If(condition, then_case, else_case) => expr_has_subclass_path(*condition)
            || expr_has_subclass_path(*then_case) || expr_has_subclass_path(*else_case),
    }
}

/// The number of variables from which on an EXISTS counts as depending much on its
/// surroundings.
pub open spec fn correlation_threshold(limits: Limits) -> nat {
    limits.filter_exists_reorder_min_correlated_vars as nat
}

/// Whether the plan of an EXISTS depends so much on its surroundings that it is
/// worth optimizing for them.
pub open spec fn highly_correlated(plan: Plan, types: Types, limits: Limits) -> bool {
    outer_variables(plan, types).len() >= limits.filter_exists_reorder_min_correlated_vars
        && has_subclass_path(plan) && !(plan is Union || plan is Group || plan is Service)
}

/// Whether an expression has such an EXISTS somewhere.
pub open spec fn has_highly_correlated(expression: Expr, types: Types, limits: Limits) -> bool
    decreases expression,
{
    match expression {
        Expr::NamedNode(_) | Expr::Literal(_) | Expr::Variable(_) | Expr::Bound(_) => false,
        Expr::Or(inner)
        | Expr::And(inner)
        | Expr::Coalesce(inner)
        | Expr::FunctionCall(_, inner) => any_has_highly_correlated(inner, types, limits),
        Expr::Equal(left, right)
        | Expr::SameTerm(left, right)
        | Expr::Greater(left, right)
        | Expr::GreaterOrEqual(left, right)
        | Expr::Less(left, right)
        | Expr::LessOrEqual(left, right)
        | Expr::Add(left, right)
        | Expr::Subtract(left, right)
        | Expr::Multiply(left, right)
        | Expr::Divide(left, right) => has_highly_correlated(*left, types, limits)
            || has_highly_correlated(*right, types, limits),
        Expr::UnaryPlus(inner) | Expr::UnaryMinus(inner) | Expr::Not(inner) => {
            has_highly_correlated(*inner, types, limits)
        },
        Expr::Exists(inner) => highly_correlated(*inner, types, limits),
        Expr::If(condition, then_case, else_case) => has_highly_correlated(
            *condition,
            types,
            limits,
        ) || has_highly_correlated(*then_case, types, limits) || has_highly_correlated(
            *else_case,
            types,
            limits,
        ),
    }
}

pub open spec fn term_variable(pattern: TermPatternView) -> Option<Seq<char>> {
    match pattern {
        TermPatternView::Variable(variable) => Some(variable),
        _ => None,
    }
}

/// The variable from whose values a repeated subclass step starts.
pub open spec fn subclass_entry_variable(
    path: PathExpr,
    subject: TermPatternView,
    object: TermPatternView,
    types: Types,
) -> Option<Seq<char>> {
    match subclass_endpoint(path) {
        Some(TransitivePathBoundEndpoint::Start) => if term_bound(subject, types) {
            term_variable(subject)
        } else {
            None
        },
        Some(TransitivePathBoundEndpoint::End) => if term_bound(object, types) {
            term_variable(object)
        } else {
            None
        },
        None => None,
    }
}

/// Whether a variable gets its values from a triple that is looked up for each
/// row of a small input, with few matches.
pub open spec fn seeds_variable(
    plan: Plan,
    variable: Seq<char>,
    types: Types,
    limits: Limits,
) -> bool
    decreases plan,
{
    match plan {
        Plan::Join { left, right, .. }
        | Plan::LeftJoin { left, right, .. }
        | Plan::Minus { left, right, .. } => seeds_variable(*left, variable, types, limits)
            || seeds_variable(*right, variable, types, limits),
        Plan::Lateral { left, right } => {
            let left_types = infer(*left, types);
            let most = limits.subclass_transitive_lateral_max_left_size;
            ||| *right is QuadPattern && type_of(left_types, variable).undef && !type_of(
                infer(*right, left_types),
                variable,
            ).undef && plan_size(*left, types, limits) <= most && plan_size(
                *right,
                left_types,
                limits,
            ) <= most
            ||| seeds_variable(*left, variable, types, limits)
            ||| seeds_variable(*right, variable, left_types, limits)
        },
        Plan::Filter { inner, .. }
        | Plan::Extend { inner, .. }
        | Plan::OrderBy { inner, .. }
        | Plan::Group { inner, .. }
        | Plan::Project { inner, .. }
        | Plan::Distinct { inner }
        | Plan::Reduced { inner }
        | Plan::Slice { inner, .. }
        | Plan::Service { inner, .. } => seeds_variable(*inner, variable, types, limits),
        Plan::Union { inner } => any_seeds_variable(inner, variable, types, limits),
        Plan::Path { .. } | Plan::QuadPattern { .. } | Plan::Values { .. } | Plan::Graph { .. } => {
            false
        },
    }
}

/// Whether a plan follows a repeated subclass step for each row of a small
/// input that a triple lookup gives.
pub open spec fn has_seeded_subclass_lookup(plan: Plan, types: Types, limits: Limits) -> bool
    decreases plan,
{
    match plan {
        Plan::Join { left, right, .. }
        | Plan::LeftJoin { left, right, .. }
        | Plan::Minus { left, right, .. } => has_seeded_subclass_lookup(*left, types, limits)
            || has_seeded_subclass_lookup(*right, types, limits),
        Plan::Lateral { left, right } => {
            let left_types = infer(*left, types);
            ||| (match *right {
                Plan::Path { subject, path, object, .. } => match subclass_entry_variable(
                    path,
                    subject,
                    object,
                    left_types,
                ) {
                    Some(variable) => seeds_variable(*left, variable, types, limits),
                    None => false,
                },
                _ => false,
            })
            ||| has_seeded_subclass_lookup(*left, types, limits)
            ||| has_seeded_subclass_lookup(*right, left_types, limits)
        },
        Plan::Filter { inner, .. }
        | Plan::Extend { inner, .. }
        | Plan::OrderBy { inner, .. }
        | Plan::Group { inner, .. }
        | Plan::Project { inner, .. }
        | Plan::Distinct { inner }
        | Plan::Reduced { inner }
        | Plan::Slice { inner, .. }
        | Plan::Service { inner, .. } => has_seeded_subclass_lookup(*inner, types, limits),
        Plan::Union { inner } => any_has_seeded_subclass_lookup(inner, types, limits),
        Plan::Path { .. } | Plan::QuadPattern { .. } | Plan::Values { .. } | Plan::Graph { .. } => {
            false
        },
    }
}

/// The number of rows for which the right side of a for loop join runs.
pub open spec fn entry_size(plan: Plan, types: Types, limits: Limits) -> nat {
    let size = plan_size(plan, types, limits);
    if has_seeded_subclass_lookup(plan, types, limits) {
        smaller(size, limits.subclass_transitive_lateral_max_left_size as nat)
    } else {
        size
    }
}

/// Whether a plan is, up to unary operators, a join without keys.
pub open spec fn is_local_cartesian(plan: Plan, types: Types) -> bool
    decreases plan,
{
    match plan {
        Plan::Join { left, right, .. } => join_keys(
            infer(*left, types),
            infer(*right, types),
            types,
        ).len() == 0,
        Plan::Filter { inner, .. }
        | Plan::Extend { inner, .. }
        | Plan::OrderBy { inner, .. }
        | Plan::Project { inner, .. }
        | Plan::Distinct { inner }
        | Plan::Reduced { inner }
        | Plan::Slice { inner, .. }
        | Plan::Group { inner, .. }
        | Plan::Service { inner, .. } => is_local_cartesian(*inner, types),
        _ => false,
    }
}

pub open spec fn any_has_subclass_path(plans: Seq<Plan>) -> bool
    decreases plans,
{
    exists|i: int| 0 <= i < plans.len() && has_subclass_path(#[trigger] plans[i])
}

pub open spec fn any_order_has_subclass_path(criteria: Seq<OrderExpr>) -> bool
    decreases criteria,
{
    exists|i: int| 0 <= i < criteria.len() && order_has_subclass_path(#[trigger] criteria[i])
}

pub open spec fn any_expr_has_subclass_path(expressions: Seq<Expr>) -> bool
    decreases expressions,
{
    exists|i: int| 0 <= i < expressions.len() && expr_has_subclass_path(#[trigger] expressions[i])
}

pub open spec fn any_has_highly_correlated(
    expressions: Seq<Expr>,
    types: Types,
    limits: Limits,
) -> bool
    decreases expressions,
{
    exists|i: int|
        0 <= i < expressions.len() && has_highly_correlated(
            #[trigger] expressions[i],
            types,
            limits,
        )
}

pub open spec fn any_seeds_variable(
    plans: Seq<Plan>,
    variable: Seq<char>,
    types: Types,
    limits: Limits,
) -> bool
    decreases plans,
{
    exists|i: int| 0 <= i < plans.len() && seeds_variable(
        #[trigger] plans[i],
        variable,
        types,
        limits,
    )
}

pub open spec fn any_has_seeded_subclass_lookup(
    plans: Seq<Plan>,
    types: Types,
    limits: Limits,
) -> bool
    decreases plans,
{
    exists|i: int|
        0 <= i < plans.len() && has_seeded_subclass_lookup(#[trigger] plans[i], types, limits)
}

/// Whether there is a variable on which two sides are joined.
pub fn has_common_variables(
    left: &VariableTypes,
    right: &VariableTypes,
    input_types: &VariableTypes,
) -> (r: bool)
    ensures
        r == have_common_variable(left@, right@, input_types@),
{
    let count: usize = left.len();
    for i in 0..count
        invariant
            count == left@.len(),
            forall|j: int| 0 <= j < i ==> !is_key(#[trigger] left@[j], right@, input_types@),
    {
        let variable = left.variable(i);
        if !left.variable_type(i).undef && !right.get(variable).undef && input_types.get(
            variable,
        ).undef {
            assert(is_key(left@[i as int], right@, input_types@));
            return true;
        }
    }
    false
}

/// The variables on which two sides are joined.
pub fn join_key_variables(
    left: &VariableTypes,
    right: &VariableTypes,
    input_types: &VariableTypes,
) -> (r: Vec<Variable>)
    ensures
        names(r@) == join_keys(left@, right@, input_types@),
{
    let ghost keep = |entry: (Seq<char>, VariableType)| is_key(entry, right@, input_types@);
    let ghost name = |entry: (Seq<char>, VariableType)| entry.0;
    let mut keys: Vec<Variable> = Vec::new();
    assert(names(keys@) =~= left@.take(0).filter(keep).map_values(name)) by {
        reveal(Seq::filter);
    }
    let count: usize = left.len();
    for i in 0..count
        invariant
            count == left@.len(),
            keep == (|entry: (Seq<char>, VariableType)| is_key(entry, right@, input_types@)),
            name == (|entry: (Seq<char>, VariableType)| entry.0),
            names(keys@) == left@.take(i as int).filter(keep).map_values(name),
    {
        let ghost before = keys@;
        proof {
            reveal(Seq::filter);
            assert(left@.take(i + 1).drop_last() =~= left@.take(i as int));
        }
        let variable = left.variable(i);
        if !left.variable_type(i).undef && !right.get(variable).undef && input_types.get(
            variable,
        ).undef {
            keys.push(variable.clone());
            assert(names(keys@) =~= names(before).push(left@[i as int].0));
            assert(left@.take(i + 1).filter(keep).map_values(name) =~= left@.take(i as int).filter(
                keep,
            ).map_values(name).push(left@[i as int].0));
        } else {
            assert(left@.take(i + 1).filter(keep) == left@.take(i as int).filter(keep));
        }
    }
    assert(left@.take(left@.len() as int) =~= left@);
    keys
}

/// Whether every variable of an expression has a value.
pub fn are_all_expression_variables_bound(
    expression: &Expression,
    variable_types: &VariableTypes,
) -> (r: bool)
    ensures
        r == all_bound(expression@, variable_types@),
{
    let used = expression.used_variables();
    let ghost found = names(used@);
    for i in 0..used.len()
        invariant
            found == names(used@),
            found.to_set() == expr_variables(expression@),
            forall|j: int| 0 <= j < i ==> !type_of(variable_types@, #[trigger] found[j]).undef,
    {
        assert(found[i as int] == used@[i as int]@);
        if variable_types.get(&used[i]).undef {
            assert(found.to_set().contains(found[i as int]));
            return false;
        }
    }
    assert forall|v: Seq<char>| #[trigger] expr_variables(expression@).contains(v) implies !type_of(
        variable_types@,
        v,
    ).undef by {
        assert(found.to_set().contains(v));
    }
    true
}

/// Whether no variable of an expression can have a value.
pub fn are_no_expression_variables_bound(
    expression: &Expression,
    variable_types: &VariableTypes,
) -> (r: bool)
    ensures
        r == none_bound(expression@, variable_types@),
{
    let used = expression.used_variables();
    let ghost found = names(used@);
    for i in 0..used.len()
        invariant
            found == names(used@),
            found.to_set() == expr_variables(expression@),
            forall|j: int|
                0 <= j < i ==> type_of(variable_types@, #[trigger] found[j])
                    == VariableType::of_undef(),
    {
        assert(found[i as int] == used@[i as int]@);
        if variable_types.get(&used[i]) != VariableType::of_undef() {
            assert(found.to_set().contains(found[i as int]));
            return false;
        }
    }
    assert forall|v: Seq<char>| #[trigger] expr_variables(expression@).contains(v) implies type_of(
        variable_types@,
        v,
    ) == VariableType::of_undef() by {
        assert(found.to_set().contains(v));
    }
    true
}

/// The number of variables of a pattern that can have a value from outside.
pub fn count_outer_bound_variables_used_in_pattern(
    pattern: &GraphPattern,
    input_types: &VariableTypes,
) -> (r: usize)
    ensures
        r == outer_variables(pattern@, input_types@).len(),
{
    let used = pattern.used_variables();
    let ghost found = names(used@);
    let ghost keep = |v: Seq<char>| type_of(input_types@, v) != VariableType::of_undef();
    let mut count: usize = 0;
    let ghost mut counted: Seq<Seq<char>> = seq![];
    for i in 0..used.len()
        invariant
            found == names(used@),
            found.no_duplicates(),
            keep == (|v: Seq<char>| type_of(input_types@, v) != VariableType::of_undef()),
            count == counted.len(),
            count <= i,
            counted.no_duplicates(),
            forall|v: Seq<char>| #[trigger]
                counted.contains(v) <==> exists|j: int| 0 <= j < i && #[trigger] found[j] == v && keep(v),
    {
        assert(found[i as int] == used@[i as int]@);
        let ghost before = counted;
        if input_types.get(&used[i]) != VariableType::of_undef() {
            count = count + 1;
            proof {
                let v = found[i as int];
                assert(!before.contains(v));
                counted = before.push(v);
                assert forall|u: Seq<char>| #[trigger] counted.contains(u) <==> exists|j: int|
                    0 <= j < i + 1 && #[trigger] found[j] == u && keep(u) by {
                    if counted.contains(u) {
                        let k = choose|k: int| 0 <= k < counted.len() && counted[k] == u;
                        if k < before.len() {
                            assert(before[k] == u);
                            assert(before.contains(u));
                        } else {
                            assert(found[i as int] == u);
                        }
                    }
                    if exists|j: int| 0 <= j < i + 1 && #[trigger] found[j] == u && keep(u) {
                        let j = choose|j: int| 0 <= j < i + 1 && #[trigger] found[j] == u && keep(u);
                        if j < i {
                            assert(before.contains(u));
                            let k = choose|k: int| 0 <= k < before.len() && before[k] == u;
                            assert(counted[k] == u);
                        } else {
                            assert(counted[before.len() as int] == u);
                        }
                    }
                }
            }
        } else {
            assert forall|u: Seq<char>| #[trigger] counted.contains(u) <==> exists|j: int|
                0 <= j < i + 1 && #[trigger] found[j] == u && keep(u) by {
                if exists|j: int| 0 <= j < i + 1 && #[trigger] found[j] == u && keep(u) {
                    let j = choose|j: int| 0 <= j < i + 1 && #[trigger] found[j] == u && keep(u);
                    assert(j < i);
                    assert(found[j] == u);
                }
            }
        }
    }
    proof {
        counted.unique_seq_to_set();
        assert(counted.to_set() =~= outer_variables(pattern@, input_types@)) by {
            assert forall|v: Seq<char>| counted.to_set().contains(v) <==> outer_variables(
                pattern@,
                input_types@,
            ).contains(v) by {
                assert(found.to_set().contains(v) == plan_variables(pattern@).contains(v));
                assert(counted.to_set().contains(v) == counted.contains(v));
                if found.contains(v) && keep(v) {
                    let j = choose|j: int| 0 <= j < found.len() && found[j] == v;
                    assert(found[j] == v && keep(v));
                }
            }
        }
    }
    count
}

fn any_pattern_has_subclass_path(items: &Vec<GraphPattern>) -> (r: bool)
    ensures
        r == any_has_subclass_path(plans_view(items@)),
    decreases items,
{
    let ghost given = plans_view(items@);
    for i in 0..items.len()
        invariant
            given == plans_view(items@),
            forall|j: int| 0 <= j < i ==> !has_subclass_path(#[trigger] given[j]),
    {
        assert(given[i as int] == items@[i as int]@);
        if graph_pattern_contains_kleene_subclass_path(&items[i]) {
            assert(has_subclass_path(given[i as int]));
            return true;
        }
    }
    false
}

fn any_criterion_has_subclass_path(items: &Vec<OrderExpression>) -> (r: bool)
    ensures
        r == any_order_has_subclass_path(orders_view(items@)),
    decreases items,
{
    let ghost given = orders_view(items@);
    for i in 0..items.len()
        invariant
            given == orders_view(items@),
            forall|j: int| 0 <= j < i ==> !order_has_subclass_path(#[trigger] given[j]),
    {
        assert(given[i as int] == items@[i as int]@);
        if order_expression_contains_kleene_subclass_path(&items[i]) {
            assert(order_has_subclass_path(given[i as int]));
            return true;
        }
    }
    false
}

fn any_expression_has_subclass_path(items: &Vec<Expression>) -> (r: bool)
    ensures
        r == any_expr_has_subclass_path(exprs_view(items@)),
    decreases items,
{
    let ghost given = exprs_view(items@);
    for i in 0..items.len()
        invariant
            given == exprs_view(items@),
            forall|j: int| 0 <= j < i ==> !expr_has_subclass_path(#[trigger] given[j]),
    {
        assert(given[i as int] == items@[i as int]@);
        if expression_contains_kleene_subclass_path(&items[i]) {
            assert(expr_has_subclass_path(given[i as int]));
            return true;
        }
    }
    false
}

/// Whether a pattern has a repeated subclass step somewhere.
pub fn graph_pattern_contains_kleene_subclass_path(pattern: &GraphPattern) -> (r: bool)
    ensures
        r == has_subclass_path(pattern@),
    decreases pattern,
{
    match pattern {
        GraphPattern::Path { path, .. } => {
            rdfs_subclass_of_kleene_transitive_path_bound_endpoint(path).is_some()
        },
        GraphPattern::Join { left, right, .. }
        | GraphPattern::LeftJoin { left, right, .. }
        | GraphPattern::Minus { left, right, .. }
        | GraphPattern::Lateral { left, right } => {
            graph_pattern_contains_kleene_subclass_path(left)
                || graph_pattern_contains_kleene_subclass_path(right)
        },
        GraphPattern::Filter { inner, expression } | GraphPattern::Extend {
            inner,
            expression,
            ..
        } => {
            graph_pattern_contains_kleene_subclass_path(inner)
                || expression_contains_kleene_subclass_path(expression)
        },
        GraphPattern::OrderBy { inner, expression } => {
            graph_pattern_contains_kleene_subclass_path(inner) || any_criterion_has_subclass_path(
                expression,
            )
        },
        GraphPattern::Project { inner, .. }
        | GraphPattern::Distinct { inner }
        | GraphPattern::Reduced { inner }
        | GraphPattern::Slice { inner, .. }
        | GraphPattern::Group { inner, .. }
        | GraphPattern::Service { inner, .. } => {
            graph_pattern_contains_kleene_subclass_path(inner)
        },
        GraphPattern::Union { inner } => any_pattern_has_subclass_path(inner),
        GraphPattern::QuadPattern { .. }
        | GraphPattern::Values { .. }
        | GraphPattern::Graph { .. } => false,
    }
}

/// Whether a sort criterion has a repeated subclass step somewhere.
pub fn order_expression_contains_kleene_subclass_path(expression: &OrderExpression) -> (r: bool)
    ensures
        r == order_has_subclass_path(expression@),
    decreases expression,
{
    match expression {
        OrderExpression::Asc(expression) | OrderExpression::Desc(expression) => {
            expression_contains_kleene_subclass_path(expression)
        },
    }
}

/// Whether an expression has a repeated subclass step somewhere.
pub fn expression_contains_kleene_subclass_path(expression: &Expression) -> (r: bool)
    ensures
        r == expr_has_subclass_path(expression@),
    decreases expression,
{
    match expression {
        Expression::NamedNode(_)
        | Expression::Literal(_)
        | Expression::Variable(_)
        | Expression::Bound(_) => false,
        Expression::Or(inner)
        | Expression::And(inner)
        | Expression::Coalesce(inner)
        | Expression::FunctionCall(_, inner) => any_expression_has_subclass_path(inner),
        Expression::Equal(left, right)
        | Expression::SameTerm(left, right)
        | Expression::Greater(left, right)
        | Expression::GreaterOrEqual(left, right)
        | Expression::Less(left, right)
        | Expression::LessOrEqual(left, right)
        | Expression::Add(left, right)
        | Expression::Subtract(left, right)
        | Expression::Multiply(left, right)
        | Expression::Divide(left, right) => expression_contains_kleene_subclass_path(left)
            || expression_contains_kleene_subclass_path(right),
        Expression::UnaryPlus(inner) | Expression::UnaryMinus(inner) | Expression::Not(inner) => {
            expression_contains_kleene_subclass_path(inner)
        },
        Expression::Exists(inner) => graph_pattern_contains_kleene_subclass_path(inner),
        Expression::If(condition, then_case, else_case) => {
            expression_contains_kleene_subclass_path(condition)
                || expression_contains_kleene_subclass_path(then_case)
                || expression_contains_kleene_subclass_path(else_case)
        },
    }
}

/// Whether the pattern of an EXISTS depends so much on its surroundings that it
/// is worth optimizing for them.
pub fn should_reorder_highly_correlated_filter_exists(
    inner: &GraphPattern,
    input_types: &VariableTypes,
    limits: &Limits,
) -> (r: bool)
    ensures
        r == highly_correlated(inner@, input_types@, *limits),
{
    count_outer_bound_variables_used_in_pattern(inner, input_types)
        >= limits.filter_exists_reorder_min_correlated_vars
        && graph_pattern_contains_kleene_subclass_path(inner) && !matches!(
        inner,
        GraphPattern::Union { .. } | GraphPattern::Group { .. } | GraphPattern::Service { .. }
    )
}

fn any_expression_is_highly_correlated(
    items: &Vec<Expression>,
    input_types: &VariableTypes,
    limits: &Limits,
) -> (r: bool)
    ensures
        r == any_has_highly_correlated(exprs_view(items@), input_types@, *limits),
    decreases items,
{
    let ghost given = exprs_view(items@);
    for i in 0..items.len()
        invariant
            given == exprs_view(items@),
            forall|j: int|
                0 <= j < i ==> !has_highly_correlated(#[trigger] given[j], input_types@, *limits),
    {
        assert(given[i as int] == items@[i as int]@);
        if expression_contains_highly_correlated_filter_exists(&items[i], input_types, limits) {
            assert(has_highly_correlated(given[i as int], input_types@, *limits));
            return true;
        }
    }
    false
}

/// Whether an expression has an EXISTS that is worth optimizing for its surroundings.
pub fn expression_contains_highly_correlated_filter_exists(
    expression: &Expression,
    input_types: &VariableTypes,
    limits: &Limits,
) -> (r: bool)
    ensures
        r == has_highly_correlated(expression@, input_types@, *limits),
    decreases expression,
{
    match expression {
        Expression::NamedNode(_)
        | Expression::Literal(_)
        | Expression::Variable(_)
        | Expression::Bound(_) => false,
        Expression::Or(inner)
        | Expression::And(inner)
        | Expression::Coalesce(inner)
        | Expression::FunctionCall(_, inner) => any_expression_is_highly_correlated(
            inner,
            input_types,
            limits,
        ),
        Expression::Equal(left, right)
        | Expression::SameTerm(left, right)
        | Expression::Greater(left, right)
        | Expression::GreaterOrEqual(left, right)
        | Expression::Less(left, right)
        | Expression::LessOrEqual(left, right)
        | Expression::Add(left, right)
        | Expression::Subtract(left, right)
        | Expression::Multiply(left, right)
        | Expression::Divide(left, right) => {
            expression_contains_highly_correlated_filter_exists(left, input_types, limits)
                || expression_contains_highly_correlated_filter_exists(right, input_types, limits)
        },
        Expression::UnaryPlus(inner) | Expression::UnaryMinus(inner) | Expression::Not(inner) => {
            expression_contains_highly_correlated_filter_exists(inner, input_types, limits)
        },
        Expression::Exists(inner) => should_reorder_highly_correlated_filter_exists(
            inner,
            input_types,
            limits,
        ),
        Expression::If(condition, then_case, else_case) => {
            expression_contains_highly_correlated_filter_exists(condition, input_types, limits)
                || expression_contains_highly_correlated_filter_exists(
                then_case,
                input_types,
                limits,
            ) || expression_contains_highly_correlated_filter_exists(else_case, input_types, limits)
        },
    }
}

/// The variable that a pattern consists of.
pub fn variable_in_term_pattern(pattern: &GroundTermPattern) -> (r: Option<&Variable>)
    ensures
        term_variable(pattern@) == match r {
            Some(variable) => Some(variable@),
            None => None,
        },
{
    match pattern {
        GroundTermPattern::Variable(variable) => Some(variable),
        _ => None,
    }
}

/// The variable from whose values a repeated subclass step starts.
pub fn bound_entry_variable_for_rdfs_subclass_of_kleene_transitive_path<'a>(
    path: &PropertyPathExpression,
    subject: &'a GroundTermPattern,
    object: &'a GroundTermPattern,
    input_types: &VariableTypes,
) -> (r: Option<&'a Variable>)
    ensures
        subclass_entry_variable(path@, subject@, object@, input_types@) == match r {
            Some(variable) => Some(variable@),
            None => None,
        },
{
    match rdfs_subclass_of_kleene_transitive_path_bound_endpoint(path) {
        Some(TransitivePathBoundEndpoint::Start) => {
            if is_term_pattern_bound(subject, input_types) {
                variable_in_term_pattern(subject)
            } else {
                None
            }
        },
        Some(TransitivePathBoundEndpoint::End) => {
            if is_term_pattern_bound(object, input_types) {
                variable_in_term_pattern(object)
            } else {
                None
            }
        },
        None => None,
    }
}

fn any_pattern_seeds_variable(
    items: &Vec<GraphPattern>,
    variable: &Variable,
    input_types: &VariableTypes,
    limits: &Limits,
) -> (r: bool)
    ensures
        r == any_seeds_variable(plans_view(items@), variable@, input_types@, *limits),
    decreases items,
{
    let ghost given = plans_view(items@);
    for i in 0..items.len()
        invariant
            given == plans_view(items@),
            forall|j: int|
                0 <= j < i ==> !seeds_variable(
                    #[trigger] given[j],
                    variable@,
                    input_types@,
                    *limits,
                ),
    {
        assert(given[i as int] == items@[i as int]@);
        if graph_pattern_has_small_seeded_lookup_for_variable(
            &items[i],
            variable,
            input_types,
            limits,
        ) {
            assert(seeds_variable(given[i as int], variable@, input_types@, *limits));
            return true;
        }
    }
    false
}

/// Whether a variable gets its values from a triple that is looked up for each
/// row of a small input, with few matches.
pub fn graph_pattern_has_small_seeded_lookup_for_variable(
    pattern: &GraphPattern,
    variable: &Variable,
    input_types: &VariableTypes,
    limits: &Limits,
) -> (r: bool)
    ensures
        r == seeds_variable(pattern@, variable@, input_types@, *limits),
    decreases pattern,
{
    match pattern {
        GraphPattern::Join { left, right, .. }
        | GraphPattern::LeftJoin { left, right, .. }
        | GraphPattern::Minus { left, right, .. } => {
            graph_pattern_has_small_seeded_lookup_for_variable(left, variable, input_types, limits)
                || graph_pattern_has_small_seeded_lookup_for_variable(
                right,
                variable,
                input_types,
                limits,
            )
        },
        GraphPattern::Lateral { left, right } => {
            let left_types = infer_graph_pattern_types(left, input_types.clone());
            let right_types = infer_graph_pattern_types(right, left_types.clone());
            let most = limits.subclass_transitive_lateral_max_left_size;
            let is_quad = matches!(**right, GraphPattern::QuadPattern { .. });
            is_quad && left_types.get(variable).undef && !right_types.get(variable).undef
                && estimate_graph_pattern_size(left, input_types, limits) <= most
                && estimate_graph_pattern_size(right, &left_types, limits) <= most
                || graph_pattern_has_small_seeded_lookup_for_variable(
                left,
                variable,
                input_types,
                limits,
            ) || graph_pattern_has_small_seeded_lookup_for_variable(
                right,
                variable,
                &left_types,
                limits,
            )
        },
        GraphPattern::Filter { inner, .. }
        | GraphPattern::Extend { inner, .. }
        | GraphPattern::OrderBy { inner, .. }
        | GraphPattern::Group { inner, .. }
        | GraphPattern::Project { inner, .. }
        | GraphPattern::Distinct { inner }
        | GraphPattern::Reduced { inner }
        | GraphPattern::Slice { inner, .. }
        | GraphPattern::Service { inner, .. } => {
            graph_pattern_has_small_seeded_lookup_for_variable(inner, variable, input_types, limits)
        },
        GraphPattern::Union { inner } => any_pattern_seeds_variable(
            inner,
            variable,
            input_types,
            limits,
        ),
        GraphPattern::Path { .. }
        | GraphPattern::QuadPattern { .. }
        | GraphPattern::Values { .. }
        | GraphPattern::Graph { .. } => false,
    }
}

fn any_pattern_has_seeded_subclass_lookup(
    items: &Vec<GraphPattern>,
    input_types: &VariableTypes,
    limits: &Limits,
) -> (r: bool)
    ensures
        r == any_has_seeded_subclass_lookup(plans_view(items@), input_types@, *limits),
    decreases items,
{
    let ghost given = plans_view(items@);
    for i in 0..items.len()
        invariant
            given == plans_view(items@),
            forall|j: int|
                0 <= j < i ==> !has_seeded_subclass_lookup(
                    #[trigger] given[j],
                    input_types@,
                    *limits,
                ),
    {
        assert(given[i as int] == items@[i as int]@);
        if graph_pattern_contains_small_seeded_subclass_lookup_lateral(
            &items[i],
            input_types,
            limits,
        ) {
            assert(has_seeded_subclass_lookup(given[i as int], input_types@, *limits));
            return true;
        }
    }
    false
}

/// Whether a pattern follows a repeated subclass step for each row of a small
/// input that a triple lookup gives.
pub fn graph_pattern_contains_small_seeded_subclass_lookup_lateral(
    pattern: &GraphPattern,
    input_types: &VariableTypes,
    limits: &Limits,
) -> (r: bool)
    ensures
        r == has_seeded_subclass_lookup(pattern@, input_types@, *limits),
    decreases pattern,
{
    match pattern {
        GraphPattern::Join { left, right, .. }
        | GraphPattern::LeftJoin { left, right, .. }
        | GraphPattern::Minus { left, right, .. } => {
            graph_pattern_contains_small_seeded_subclass_lookup_lateral(left, input_types, limits)
                || graph_pattern_contains_small_seeded_subclass_lookup_lateral(
                right,
                input_types,
                limits,
            )
        },
        GraphPattern::Lateral { left, right } => {
            let left_types = infer_graph_pattern_types(left, input_types.clone());
            let right_is_seeded = match &**right {
                GraphPattern::Path { subject, path, object, .. } => {
                    match bound_entry_variable_for_rdfs_subclass_of_kleene_transitive_path(
                        path,
                        subject,
                        object,
                        &left_types,
                    ) {
                        Some(variable) => graph_pattern_has_small_seeded_lookup_for_variable(
                            left,
                            variable,
                            input_types,
                            limits,
                        ),
                        None => false,
                    }
                },
                _ => false,
            };
            right_is_seeded || graph_pattern_contains_small_seeded_subclass_lookup_lateral(
                left,
                input_types,
                limits,
            ) || graph_pattern_contains_small_seeded_subclass_lookup_lateral(
                right,
                &left_types,
                limits,
            )
        },
        GraphPattern::Filter { inner, .. }
        | GraphPattern::Extend { inner, .. }
        | GraphPattern::OrderBy { inner, .. }
        | GraphPattern::Group { inner, .. }
        | GraphPattern::Project { inner, .. }
        | GraphPattern::Distinct { inner }
        | GraphPattern::Reduced { inner }
        | GraphPattern::Slice { inner, .. }
        | GraphPattern::Service { inner, .. } => {
            graph_pattern_contains_small_seeded_subclass_lookup_lateral(inner, input_types, limits)
        },
        GraphPattern::Union { inner } => any_pattern_has_seeded_subclass_lookup(
            inner,
            input_types,
            limits,
        ),
        GraphPattern::Path { .. }
        | GraphPattern::QuadPattern { .. }
        | GraphPattern::Values { .. }
        | GraphPattern::Graph { .. } => false,
    }
}

/// Whether a pattern is better not evaluated twice: it follows a repeated
/// subclass step for each row of a small input.
pub fn should_avoid_singleton_union_duplication(
    pattern: &GraphPattern,
    input_types: &VariableTypes,
    limits: &Limits,
) -> (r: bool)
    ensures
        r == has_seeded_subclass_lookup(pattern@, input_types@, *limits),
{
    graph_pattern_contains_small_seeded_subclass_lookup_lateral(pattern, input_types, limits)
}

/// The number of rows for which the right side of a for loop join runs.
pub fn estimate_for_loop_entry_size(
    pattern: &GraphPattern,
    input_types: &VariableTypes,
    limits: &Limits,
) -> (r: usize)
    ensures
        r == entry_size(pattern@, input_types@, *limits),
{
    let estimate = estimate_graph_pattern_size(pattern, input_types, limits);
    if graph_pattern_contains_small_seeded_subclass_lookup_lateral(pattern, input_types, limits)
        && estimate > limits.subclass_transitive_lateral_max_left_size {
        limits.subclass_transitive_lateral_max_left_size
    } else {
        estimate
    }
}

/// Whether a pattern is, up to unary operators, a join without keys.
pub fn has_local_cartesian_inner_join(
    pattern: &GraphPattern,
    input_types: &VariableTypes,
) -> (r: bool)
    ensures
        r == is_local_cartesian(pattern@, input_types@),
    decreases pattern,
{
    match pattern {
        GraphPattern::Join { left, right, .. } => {
            let left_types = infer_graph_pattern_types(left, input_types.clone());
            let right_types = infer_graph_pattern_types(right, input_types.clone());
            let keys = join_key_variables(&left_types, &right_types, input_types);
            assert(names(keys@).len() == keys@.len());
            keys.len() == 0
        },
        GraphPattern::Filter { inner, .. }
        | GraphPattern::Extend { inner, .. }
        | GraphPattern::OrderBy { inner, .. }
        | GraphPattern::Group { inner, .. }
        | GraphPattern::Project { inner, .. }
        | GraphPattern::Distinct { inner }
        | GraphPattern::Reduced { inner }
        | GraphPattern::Slice { inner, .. }
        | GraphPattern::Service { inner, .. } => has_local_cartesian_inner_join(inner, input_types),
        _ => false,
    }
}

} // verus!
