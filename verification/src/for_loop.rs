//! Whether a pattern can be evaluated once for each row of an input.

use vstd::prelude::*;

use crate::algebra::{
    exprs_view, plans_view, Expr, Expression, GraphPattern, PathExpr, Plan, PropertyPathExpression,
};
use crate::estimate::{
    contains_kleene, contains_kleene_transitive_path, estimate_graph_pattern_size,
    graph_pattern_reordering_penalty, is_entry_bound_for_rdfs_subclass_of_kleene_transitive_path,
    is_named_node_pattern_bound, is_rdfs_subclass_of_predicate, is_subclass_of,
    is_term_pattern_bound, node_bound, plan_penalty, plan_size, subclass_entry_bound, term_bound,
};
use crate::factors::{flatten_inner_join_factors, join_factors, lemma_factors_decrease};
use crate::greedy::{key_view, keys_view, least, pick_least};
use crate::limits::Limits;
use crate::lookups::{graph_pattern_contains_kleene_subclass_path, has_subclass_path};
use crate::type_inference::{
    infer, infer_graph_pattern_types, intersect, type_of, Types, VariableType, VariableTypes,
};

verus! {

/// The largest input for each row of which a transitive path is followed.
pub open spec fn lateral_limit(
    path: PathExpr,
    start_bound: bool,
    end_bound: bool,
    limits: Limits,
) -> usize {
    if subclass_entry_bound(path, start_bound, end_bound) {
        limits.subclass_transitive_lateral_max_left_size
    } else {
        limits.transitive_lateral_max_left_size
    }
}

/// Whether the right side of a left join can bind a variable that the input
/// may bind as well.
pub open spec fn rebinds(left: Types, right: Types, entry: Types) -> bool {
    exists|i: int|
        0 <= i < right.len() && is_rebound(#[trigger] right[i], left, entry)
}

pub open spec fn is_rebound(
    variable: (Seq<char>, VariableType),
    left: Types,
    entry: Types,
) -> bool {
    variable.1 != VariableType::of_undef() && type_of(left, variable.0).undef && type_of(
        entry,
        variable.0,
    ) != VariableType::of_undef()
}

/// The keys by which the next factor is chosen among those that remain and fit.
pub open spec fn fitting_keys(
    factors: Seq<Plan>,
    fit: spec_fn(int, Types) -> bool,
    remaining: Seq<bool>,
    current: Types,
    global: Types,
    limits: Limits,
) -> Seq<Option<(nat, nat)>> {
    Seq::new(
        factors.len(),
        |i: int|
            if remaining[i] && fit(i, current) {
                Some((plan_size(factors[i], global, limits), plan_penalty(factors[i], current)))
            } else {
                None
            },
    )
}

/// Whether the factors can be evaluated one after the other, where each time
/// the best of those that fit what is already known comes next.
pub open spec fn all_get_ordered(
    factors: Seq<Plan>,
    fit: spec_fn(int, Types) -> bool,
    remaining: Seq<bool>,
    current: Types,
    global: Types,
    limits: Limits,
    steps: nat,
) -> bool
    decreases steps,
{
    if steps == 0 {
        nothing_remains(remaining)
    } else {
        match least(fitting_keys(factors, fit, remaining, current, global, limits)) {
            Some(i) => all_get_ordered(
                factors,
                fit,
                remaining.update(i, false),
                intersect(current, infer(factors[i], global)),
                global,
                limits,
                (steps - 1) as nat,
            ),
            None => nothing_remains(remaining),
        }
    }
}

pub open spec fn nothing_remains(remaining: Seq<bool>) -> bool {
    forall|i: int| 0 <= i < remaining.len() ==> !(#[trigger] remaining[i])
}

pub open spec fn everything_remains(count: nat) -> Seq<bool> {
    Seq::new(count, |i: int| true)
}

/// Whether a factor of a join fits an input.
pub open spec fn factor_fits(
    plan: Plan,
    global: Types,
    size: nat,
    limits: Limits,
) -> spec_fn(int, Types) -> bool
    decreases plan, 0nat,
{
    let factors = join_factors(plan);
    |i: int, entry: Types|
        0 <= i < factors.len() && decreases_to!(plan => factors[i]) && fits(
            factors[i],
            global,
            entry,
            size,
            limits,
        )
}

/// Whether a plan, evaluated for each row of an input of a given size that
/// binds variables of the `entry` types, gives what a join with that input gives
/// at a reasonable cost.
pub open spec fn fits(plan: Plan, global: Types, entry: Types, size: nat, limits: Limits) -> bool
    decreases plan, 1nat,
{
    match plan {
        Plan::Values { .. } | Plan::Graph { .. } => true,
        Plan::QuadPattern { predicate, .. } => !(is_subclass_of(predicate) && size
            > limits.subclass_for_loop_max_left_size),
        Plan::Path { subject, path, object, .. } => !contains_kleene(path) || {
            let start_bound = term_bound(subject, entry);
            let end_bound = term_bound(object, entry);
            size <= lateral_limit(path, start_bound, end_bound, limits) && (start_bound
                || end_bound)
        },
        Plan::Lateral { left, right } => fits(*left, global, entry, size, limits) && fits(
            *right,
            global,
            entry,
            size,
            limits,
        ),
        Plan::LeftJoin { left, right, expression, .. } => {
            let left_types = infer(*left, global);
            let right_types = infer(*right, global);
            fits(*left, global, entry, size, limits) && !rebinds(left_types, right_types, entry)
                && expr_fits(
                expression,
                intersect(left_types, right_types),
                entry,
                size,
                limits,
            )
        },
        Plan::Union { inner } => all_fit(inner, global, entry, size, limits),
        Plan::Filter { inner, expression } => fits(*inner, global, entry, size, limits)
            && expr_fits(expression, infer(*inner, global), entry, size, limits),
        Plan::Extend { inner, variable, expression } => fits(*inner, global, entry, size, limits)
            && type_of(entry, variable) == VariableType::of_undef() && expr_fits(
            expression,
            infer(*inner, global),
            entry,
            size,
            limits,
        ),
        Plan::Service { name, .. } => node_bound(name, entry),
        Plan::Join { .. } => has_subclass_path(plan) && {
            let factors = join_factors(plan);
            all_get_ordered(
                factors,
                factor_fits(plan, global, size, limits),
                everything_remains(factors.len()),
                entry,
                global,
                limits,
                factors.len(),
            )
        },
        Plan::Minus { .. }
        | Plan::OrderBy { .. }
        | Plan::Distinct { .. }
        | Plan::Reduced { .. }
        | Plan::Slice { .. }
        | Plan::Project { .. }
        | Plan::Group { .. } => false,
    }
}

pub open spec fn all_fit(
    plans: Seq<Plan>,
    global: Types,
    entry: Types,
    size: nat,
    limits: Limits,
) -> bool
    decreases plans, 1nat,
{
    forall|i: int|
        0 <= i < plans.len() ==> fits(#[trigger] plans[i], global, entry, size, limits)
}

/// Whether an expression has the same value when the variables of the input
/// are known as well.
pub open spec fn expr_fits(
    expression: Expr,
    types: Types,
    entry: Types,
    size: nat,
    limits: Limits,
) -> bool
    decreases expression, 1nat,
{
    match expression {
        Expr::NamedNode(_) | Expr::Literal(_) => true,
        Expr::Variable(variable) | Expr::Bound(variable) => !type_of(types, variable).undef
            || type_of(entry, variable) == VariableType::of_undef(),
        Expr::Or(inner)
        | Expr::And(inner)
        | Expr::Coalesce(inner)
        | Expr::FunctionCall(_, inner) => all_exprs_fit(inner, types, entry, size, limits),
        Expr::Equal(left, right)
        | Expr::SameTerm(left, right)
        | Expr::Greater(left, right)
        | Expr::GreaterOrEqual(left, right)
        | Expr::Less(left, right)
        | Expr::LessOrEqual(left, right)
        | Expr::Add(left, right)
        | Expr::Subtract(left, right)
        | Expr::Multiply(left, right)
        | Expr::Divide(left, right) => expr_fits(*left, types, entry, size, limits)
            && expr_fits(*right, types, entry, size, limits),
        Expr::UnaryPlus(inner) | Expr::UnaryMinus(inner) | Expr::Not(inner) => expr_fits(
            *inner,
            types,
            entry,
            size,
            limits,
        ),
        Expr::If(condition, then_case, else_case) => expr_fits(
            *condition,
            types,
            entry,
            size,
            limits,
        ) && expr_fits(*then_case, types, entry, size, limits) && expr_fits(
            *else_case,
            types,
            entry,
            size,
            limits,
        ),
        Expr::Exists(inner) => fits(*inner, types, entry, size, limits),
    }
}

pub open spec fn all_exprs_fit(
    expressions: Seq<Expr>,
    types: Types,
    entry: Types,
    size: nat,
    limits: Limits,
) -> bool
    decreases expressions, 1nat,
{
    forall|i: int|
        0 <= i < expressions.len() ==> expr_fits(
            #[trigger] expressions[i],
            types,
            entry,
            size,
            limits,
        )
}

/// The parts of a plan are smaller than the plan.
proof fn lemma_plan_parts(plan: Plan)
    ensures
        match plan {
            Plan::Lateral { left, right } => decreases_to!(plan => *left) && decreases_to!(
                plan => *right
            ),
            Plan::LeftJoin { left, expression, .. } => decreases_to!(plan => *left)
                && decreases_to!(plan => expression),
            Plan::Union { inner } => decreases_to!(plan => inner),
            Plan::Filter { inner, expression } | Plan::Extend { inner, expression, .. } => {
                decreases_to!(plan => *inner) && decreases_to!(plan => expression)
            },
            _ => true,
        },
{
}

/// The parts of an expression are smaller than the expression.
proof fn lemma_expr_parts(expression: Expr)
    ensures
        match expression {
            Expr::Or(inner)
            | Expr::And(inner)
            | Expr::Coalesce(inner)
            | Expr::FunctionCall(_, inner) => decreases_to!(expression => inner),
            Expr::Equal(left, right)
            | Expr::SameTerm(left, right)
            | Expr::Greater(left, right)
            | Expr::GreaterOrEqual(left, right)
            | Expr::Less(left, right)
            | Expr::LessOrEqual(left, right)
            | Expr::Add(left, right)
            | Expr::Subtract(left, right)
            | Expr::Multiply(left, right)
            | Expr::Divide(left, right) => decreases_to!(expression => *left)
                && decreases_to!(expression => *right),
            Expr::UnaryPlus(inner) | Expr::UnaryMinus(inner) | Expr::Not(inner) => decreases_to!(
                expression => *inner
            ),
            Expr::If(condition, then_case, else_case) => decreases_to!(expression => *condition)
                && decreases_to!(expression => *then_case) && decreases_to!(
                expression => *else_case
            ),
            Expr::Exists(inner) => decreases_to!(expression => *inner),
            _ => true,
        },
{
}

/// The largest input for each row of which a transitive path is followed.
pub fn transitive_lateral_max_left_size_for_path(
    path: &PropertyPathExpression,
    entry_start_bound: bool,
    entry_end_bound: bool,
    limits: &Limits,
) -> (r: usize)
    ensures
        r == lateral_limit(path@, entry_start_bound, entry_end_bound, *limits),
{
    if is_entry_bound_for_rdfs_subclass_of_kleene_transitive_path(
        path,
        entry_start_bound,
        entry_end_bound,
    ) {
        limits.subclass_transitive_lateral_max_left_size
    } else {
        limits.transitive_lateral_max_left_size
    }
}

fn rebinds_entry(left: &VariableTypes, right: &VariableTypes, entry: &VariableTypes) -> (r: bool)
    ensures
        r == rebinds(left@, right@, entry@),
{
    let count: usize = right.len();
    for i in 0..count
        invariant
            count == right@.len(),
            forall|j: int| 0 <= j < i ==> !is_rebound(#[trigger] right@[j], left@, entry@),
    {
        let variable = right.variable(i);
        if right.variable_type(i) != VariableType::of_undef() && left.get(variable).undef
            && entry.get(variable) != VariableType::of_undef() {
            assert(is_rebound(right@[i as int], left@, entry@));
            return true;
        }
    }
    false
}

fn is_all_done(remaining: &Vec<bool>) -> (r: bool)
    ensures
        r == nothing_remains(remaining@),
{
    for i in 0..remaining.len()
        invariant
            forall|j: int| 0 <= j < i ==> !(#[trigger] remaining@[j]),
    {
        if remaining[i] {
            return false;
        }
    }
    true
}

fn are_patterns_fit_for_for_loop_join(
    patterns: &Vec<GraphPattern>,
    global_input_types: &VariableTypes,
    entry_types: &VariableTypes,
    entry_estimated_size: usize,
    limits: &Limits,
) -> (r: bool)
    ensures
        r == all_fit(
            plans_view(patterns@),
            global_input_types@,
            entry_types@,
            entry_estimated_size as nat,
            *limits,
        ),
    decreases plans_view(patterns@), 1nat,
{
    let ghost given = plans_view(patterns@);
    for i in 0..patterns.len()
        invariant
            given == plans_view(patterns@),
            forall|j: int|
                0 <= j < i ==> fits(
                    #[trigger] given[j],
                    global_input_types@,
                    entry_types@,
                    entry_estimated_size as nat,
                    *limits,
                ),
    {
        assert(given[i as int] == patterns@[i as int]@);
        if !is_fit_for_for_loop_join(
            &patterns[i],
            global_input_types,
            entry_types,
            entry_estimated_size,
            limits,
        ) {
            return false;
        }
    }
    true
}

fn is_join_fit_for_for_loop_join(
    pattern: &GraphPattern,
    factors: &Vec<GraphPattern>,
    global_input_types: &VariableTypes,
    entry_types: &VariableTypes,
    entry_estimated_size: usize,
    limits: &Limits,
) -> (r: bool)
    requires
        pattern@ is Join,
        plans_view(factors@) == join_factors(pattern@),
    ensures
        r == all_get_ordered(
            join_factors(pattern@),
            factor_fits(pattern@, global_input_types@, entry_estimated_size as nat, *limits),
            everything_remains(join_factors(pattern@).len()),
            entry_types@,
            global_input_types@,
            *limits,
            join_factors(pattern@).len(),
        ),
    decreases pattern@, 0nat,
{
    let ghost given = join_factors(pattern@);
    let ghost global = global_input_types@;
    let ghost size = entry_estimated_size as nat;
    let ghost fit = factor_fits(pattern@, global, size, *limits);
    let ghost goal = all_get_ordered(
        given,
        fit,
        everything_remains(given.len()),
        entry_types@,
        global,
        *limits,
        given.len(),
    );
    let count: usize = factors.len();
    let mut remaining: Vec<bool> = Vec::new();
    for i in 0..count
        invariant
            remaining@.len() == i,
            forall|j: int| 0 <= j < i ==> #[trigger] remaining@[j],
    {
        remaining.push(true);
    }
    assert(remaining@ =~= everything_remains(given.len()));
    let mut current_types = entry_types.clone();
    for step in 0..count
        invariant
            pattern@ is Join,
            plans_view(factors@) == given,
            given == join_factors(pattern@),
            count == given.len(),
            count == factors@.len(),
            remaining@.len() == count,
            global == global_input_types@,
            size == entry_estimated_size as nat,
            fit == factor_fits(pattern@, global, size, *limits),
            goal == all_get_ordered(
                given,
                fit,
                everything_remains(given.len()),
                entry_types@,
                global,
                *limits,
                given.len(),
            ),
            goal == all_get_ordered(
                given,
                fit,
                remaining@,
                current_types@,
                global,
                *limits,
                (count - step) as nat,
            ),
    {
        let mut keys: Vec<Option<(usize, usize)>> = Vec::new();
        let ghost wanted = fitting_keys(given, fit, remaining@, current_types@, global, *limits);
        for i in 0..count
            invariant
                step < count,
                pattern@ is Join,
                plans_view(factors@) == given,
                given == join_factors(pattern@),
                count == given.len(),
                count == factors@.len(),
                remaining@.len() == count,
                global == global_input_types@,
                size == entry_estimated_size as nat,
                fit == factor_fits(pattern@, global, size, *limits),
                wanted == fitting_keys(given, fit, remaining@, current_types@, global, *limits),
                keys@.len() == i,
                forall|j: int| 0 <= j < i ==> key_view(#[trigger] keys@[j]) == wanted[j],
        {
            proof {
                assert(given[i as int] == factors@[i as int]@);
                lemma_factors_decrease(pattern@, i as int);
            }
            if remaining[i] && is_fit_for_for_loop_join(
                &factors[i],
                global_input_types,
                &current_types,
                entry_estimated_size,
                limits,
            ) {
                assert(fit(i as int, current_types@));
                keys.push(
                    Some(
                        (
                            estimate_graph_pattern_size(&factors[i], global_input_types, limits),
                            graph_pattern_reordering_penalty(&factors[i], &current_types),
                        ),
                    ),
                );
            } else {
                assert(!(remaining@[i as int] && fit(i as int, current_types@)));
                keys.push(None);
            }
        }
        assert(keys_view(keys@) =~= wanted);
        match pick_least(&keys) {
            Some(next) => {
                assert(given[next as int] == factors@[next as int]@);
                remaining.set(next, false);
                let next_types = infer_graph_pattern_types(
                    &factors[next],
                    global_input_types.clone(),
                );
                current_types = current_types.intersect_with(next_types);
            },
            None => {
                return is_all_done(&remaining);
            },
        }
    }
    is_all_done(&remaining)
}

/// Whether a pattern, evaluated for each row of an input of a given size that
/// binds variables of the entry types, gives what a join with that input gives
/// at a reasonable cost.
pub fn is_fit_for_for_loop_join(
    pattern: &GraphPattern,
    global_input_types: &VariableTypes,
    entry_types: &VariableTypes,
    entry_estimated_size: usize,
    limits: &Limits,
) -> (r: bool)
    ensures
        r == fits(
            pattern@,
            global_input_types@,
            entry_types@,
            entry_estimated_size as nat,
            *limits,
        ),
    decreases pattern@, 1nat,
{
    proof {
        lemma_plan_parts(pattern@);
    }
    match pattern {
        GraphPattern::Values { .. } | GraphPattern::Graph { .. } => true,
        GraphPattern::QuadPattern { predicate, .. } => !(is_rdfs_subclass_of_predicate(predicate)
            && entry_estimated_size > limits.subclass_for_loop_max_left_size),
        GraphPattern::Path { subject, path, object, .. } => {
            if !contains_kleene_transitive_path(path) {
                return true;
            }
            let entry_start_bound = is_term_pattern_bound(subject, entry_types);
            let entry_end_bound = is_term_pattern_bound(object, entry_types);
            entry_estimated_size <= transitive_lateral_max_left_size_for_path(
                path,
                entry_start_bound,
                entry_end_bound,
                limits,
            ) && (entry_start_bound || entry_end_bound)
        },
        GraphPattern::Lateral { left, right } => is_fit_for_for_loop_join(
            left,
            global_input_types,
            entry_types,
            entry_estimated_size,
            limits,
        ) && is_fit_for_for_loop_join(
            right,
            global_input_types,
            entry_types,
            entry_estimated_size,
            limits,
        ),
        GraphPattern::LeftJoin { left, right, expression, .. } => {
            if !is_fit_for_for_loop_join(
                left,
                global_input_types,
                entry_types,
                entry_estimated_size,
                limits,
            ) {
                return false;
            }
            // The right side must not bind a variable that the input binds as well.
            let left_types = infer_graph_pattern_types(left, global_input_types.clone());
            let right_types = infer_graph_pattern_types(right, global_input_types.clone());
            if rebinds_entry(&left_types, &right_types, entry_types) {
                return false;
            }
            is_expression_fit_for_for_loop_join(
                expression,
                &left_types.intersect_with(right_types),
                entry_types,
                entry_estimated_size,
                limits,
            )
        },
        GraphPattern::Union { inner } => are_patterns_fit_for_for_loop_join(
            inner,
            global_input_types,
            entry_types,
            entry_estimated_size,
            limits,
        ),
        GraphPattern::Filter { inner, expression } => {
            let inner_types = infer_graph_pattern_types(inner, global_input_types.clone());
            is_fit_for_for_loop_join(
                inner,
                global_input_types,
                entry_types,
                entry_estimated_size,
                limits,
            ) && is_expression_fit_for_for_loop_join(
                expression,
                &inner_types,
                entry_types,
                entry_estimated_size,
                limits,
            )
        },
        GraphPattern::Extend { inner, variable, expression } => {
            let inner_types = infer_graph_pattern_types(inner, global_input_types.clone());
            is_fit_for_for_loop_join(
                inner,
                global_input_types,
                entry_types,
                entry_estimated_size,
                limits,
            ) && entry_types.get(variable) == VariableType::of_undef()
                && is_expression_fit_for_for_loop_join(
                expression,
                &inner_types,
                entry_types,
                entry_estimated_size,
                limits,
            )
        },
        GraphPattern::Service { name, .. } => is_named_node_pattern_bound(name, entry_types),
        GraphPattern::Join { .. } => {
            if !graph_pattern_contains_kleene_subclass_path(pattern) {
                return false;
            }
            let mut factors: Vec<GraphPattern> = Vec::new();
            assert(plans_view(factors@) =~= seq![]);
            flatten_inner_join_factors(pattern.clone(), &mut factors);
            assert(plans_view(factors@) =~= join_factors(pattern@));
            is_join_fit_for_for_loop_join(
                pattern,
                &factors,
                global_input_types,
                entry_types,
                entry_estimated_size,
                limits,
            )
        },
        GraphPattern::Minus { .. }
        | GraphPattern::OrderBy { .. }
        | GraphPattern::Distinct { .. }
        | GraphPattern::Reduced { .. }
        | GraphPattern::Slice { .. }
        | GraphPattern::Project { .. }
        | GraphPattern::Group { .. } => false,
    }
}

fn are_expressions_fit_for_for_loop_join(
    expressions: &Vec<Expression>,
    input_types: &VariableTypes,
    entry_types: &VariableTypes,
    entry_estimated_size: usize,
    limits: &Limits,
) -> (r: bool)
    ensures
        r == all_exprs_fit(
            exprs_view(expressions@),
            input_types@,
            entry_types@,
            entry_estimated_size as nat,
            *limits,
        ),
    decreases exprs_view(expressions@), 1nat,
{
    let ghost given = exprs_view(expressions@);
    for i in 0..expressions.len()
        invariant
            given == exprs_view(expressions@),
            forall|j: int|
                0 <= j < i ==> expr_fits(
                    #[trigger] given[j],
                    input_types@,
                    entry_types@,
                    entry_estimated_size as nat,
                    *limits,
                ),
    {
        assert(given[i as int] == expressions@[i as int]@);
        if !is_expression_fit_for_for_loop_join(
            &expressions[i],
            input_types,
            entry_types,
            entry_estimated_size,
            limits,
        ) {
            return false;
        }
    }
    true
}

/// Whether an expression has the same value when the variables of the input
/// are known as well.
pub fn is_expression_fit_for_for_loop_join(
    expression: &Expression,
    input_types: &VariableTypes,
    entry_types: &VariableTypes,
    entry_estimated_size: usize,
    limits: &Limits,
) -> (r: bool)
    ensures
        r == expr_fits(
            expression@,
            input_types@,
            entry_types@,
            entry_estimated_size as nat,
            *limits,
        ),
    decreases expression@, 1nat,
{
    proof {
        lemma_expr_parts(expression@);
    }
    match expression {
        Expression::NamedNode(_) | Expression::Literal(_) => true,
        Expression::Variable(variable) | Expression::Bound(variable) => !input_types.get(
            variable,
        ).undef || entry_types.get(variable) == VariableType::of_undef(),
        Expression::Or(inner)
        | Expression::And(inner)
        | Expression::Coalesce(inner)
        | Expression::FunctionCall(_, inner) => are_expressions_fit_for_for_loop_join(
            inner,
            input_types,
            entry_types,
            entry_estimated_size,
            limits,
        ),
        Expression::Equal(left, right)
        | Expression::SameTerm(left, right)
        | Expression::Greater(left, right)
        | Expression::GreaterOrEqual(left, right)
        | Expression::Less(left, right)
        | Expression::LessOrEqual(left, right)
        | Expression::Add(left, right)
        | Expression::Subtract(left, right)
        | Expression::Multiply(left, right)
        | Expression::Divide(left, right) => is_expression_fit_for_for_loop_join(
            left,
            input_types,
            entry_types,
            entry_estimated_size,
            limits,
        ) && is_expression_fit_for_for_loop_join(
            right,
            input_types,
            entry_types,
            entry_estimated_size,
            limits,
        ),
        Expression::UnaryPlus(inner) | Expression::UnaryMinus(inner) | Expression::Not(inner) => {
            is_expression_fit_for_for_loop_join(
                inner,
                input_types,
                entry_types,
                entry_estimated_size,
                limits,
            )
        },
        Expression::If(condition, then_case, else_case) => is_expression_fit_for_for_loop_join(
            condition,
            input_types,
            entry_types,
            entry_estimated_size,
            limits,
        ) && is_expression_fit_for_for_loop_join(
            then_case,
            input_types,
            entry_types,
            entry_estimated_size,
            limits,
        ) && is_expression_fit_for_for_loop_join(
            else_case,
            input_types,
            entry_types,
            entry_estimated_size,
            limits,
        ),
        Expression::Exists(inner) => is_fit_for_for_loop_join(
            inner,
            input_types,
            entry_types,
            entry_estimated_size,
            limits,
        ),
    }
}

} // verus!
