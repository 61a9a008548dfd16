//! The optimizer.

use vstd::prelude::*;

use crate::algebra::{
    clone_all, exprs_view, plans_view, Expr, Expression, GraphPattern, JoinAlgorithm,
    LeftJoinAlgorithm, MinusAlgorithm, Plan,
};
use crate::builders::union_all;
use crate::depth::{lemma_join_factors_measure, lemma_normalize_depth};
use crate::estimate::{
    estimate_graph_pattern_size, estimate_join_cost, estimate_lateral_cost,
    graph_pattern_reordering_penalty,
};
use crate::factors::{
    can_deduplicate_join_factor, contains_atom, flatten_inner_join_factors, join_all_factors,
    join_factors, joined, lemma_has_factor, split_singleton_union_branches,
};
use crate::for_loop::{everything_remains, is_fit_for_for_loop_join};
use crate::greedy::{key_view, keys_view, lemma_least, pick_least};
use crate::limits::{default_limits, Limits};
use crate::lookups::{
    estimate_for_loop_entry_size, has_common_variables, has_seeded_subclass_lookup,
    join_key_variables, should_avoid_singleton_union_duplication,
    should_reorder_highly_correlated_filter_exists,
};
use crate::measure::{
    depth, expr_depth, exprs_depth, left_weight, lemma_exprs_depth, lemma_item_depth,
    lemma_item_weight, lemma_product_positive, lemma_product_without, lemma_weight_positive, lower,
    max_depth, weight, weight_product,
};
use crate::normalize::normalize_pattern;
use crate::push_filters::{push, push_filters};
use crate::reorder::{
    any_seeded, attach_cost, components, cross, crossed, deduplicated, entry_keys, greedy_join,
    grow, guarded_split, next_keys, optimize, optimizer, reorder, reorder_all_exists, reorder_below,
    reorder_each, reorder_exists, reorder_factors, reorder_join, reorder_left_join,
    without_singleton,
};
use crate::reorder_measure::{
    lemma_base_measure, lemma_exists_below, lemma_reorder_below_shrinks,
    lemma_reordered_factors_measure,
};
use crate::rewrite_measure::{
    lemma_distribute_either_measure, lemma_distribute_flat_measure,
    lemma_filter_instead_of_either_measure, lemma_split_off_singleton_measure,
};
use crate::rewrites::{
    find_singleton_union, guarded_singleton_union_inner_join_fallback, has_one_singleton,
    join_on_common_variables, lemma_first_where,
    rewrite_flat_join_with_guarded_singleton_union_branch,
    rewrite_flat_join_with_small_factor_union,
    rewrite_inner_join_with_correlated_filter_only_union_branch,
    rewrite_inner_join_with_singleton_union_branch, rewrite_inner_join_with_small_factor_union,
    singleton_others,
};
use crate::term::{names, Variable};
use crate::type_inference::{infer, infer_graph_pattern_types, Types, VariableTypes};

verus! {

/// The optimizer of graph patterns.
pub struct Optimizer;

/// The views of the types of some plans are the types of those plans.
pub open spec fn types_match(types: Seq<VariableTypes>, plans: Seq<Plan>, input: Types) -> bool {
    types.len() == plans.len() && forall|i: int|
        0 <= i < plans.len() ==> (#[trigger] types[i])@ == infer(plans[i], input)
}

fn infer_all(patterns: &Vec<GraphPattern>, input_types: &VariableTypes) -> (r: Vec<VariableTypes>)
    ensures
        types_match(r@, plans_view(patterns@), input_types@),
{
    let ghost given = plans_view(patterns@);
    let mut result: Vec<VariableTypes> = Vec::new();
    for i in 0..patterns.len()
        invariant
            given == plans_view(patterns@),
            result@.len() == i,
            forall|j: int|
                0 <= j < i ==> (#[trigger] result@[j])@ == infer(given[j], input_types@),
    {
        assert(given[i as int] == patterns@[i as int]@);
        result.push(infer_graph_pattern_types(&patterns[i], input_types.clone()));
    }
    result
}

/// Some patterns, where an atom that occurs again is dropped.
fn deduplicate(patterns: Vec<GraphPattern>) -> (r: Vec<GraphPattern>)
    ensures
        plans_view(r@) == deduplicated(plans_view(patterns@)),
{
    let ghost given = plans_view(patterns@);
    let mut result: Vec<GraphPattern> = Vec::new();
    assert(plans_view(result@) =~= seq![]);
    for pattern in it: patterns
        invariant
            it.seq() == patterns@,
            given == plans_view(patterns@),
            plans_view(result@) == deduplicated(given.take(it.index() as int)),
    {
        let ghost n = it.index() as int;
        let ghost (before, plan) = (result@, pattern@);
        proof {
            assert(given[n] == pattern@);
            assert(given.take(n + 1).drop_last() =~= given.take(n));
        }
        if !(can_deduplicate_join_factor(&pattern) && contains_atom(&result, &pattern)) {
            result.push(pattern);
            assert(plans_view(result@) =~= plans_view(before).push(plan));
        }
    }
    assert(given.take(given.len() as int) =~= given);
    result
}

/// The keys by which the first of some joined patterns is chosen.
fn entry_sort_keys(
    factors: &Vec<GraphPattern>,
    remaining: &Vec<bool>,
    input_types: &VariableTypes,
    limits: &Limits,
) -> (r: Vec<Option<(usize, usize)>>)
    requires
        remaining@.len() == factors@.len(),
    ensures
        keys_view(r@) == entry_keys(plans_view(factors@), remaining@, input_types@, *limits),
{
    let ghost given = plans_view(factors@);
    let ghost wanted = entry_keys(given, remaining@, input_types@, *limits);
    let mut keys: Vec<Option<(usize, usize)>> = Vec::new();
    for i in 0..factors.len()
        invariant
            given == plans_view(factors@),
            remaining@.len() == factors@.len(),
            wanted == entry_keys(given, remaining@, input_types@, *limits),
            keys@.len() == i,
            forall|j: int| 0 <= j < i ==> key_view(#[trigger] keys@[j]) == wanted[j],
    {
        assert(given[i as int] == factors@[i as int]@);
        let key = if remaining[i] {
            Some(
                (
                    estimate_graph_pattern_size(&factors[i], input_types, limits),
                    graph_pattern_reordering_penalty(&factors[i], input_types),
                ),
            )
        } else {
            None
        };
        keys.push(key);
    }
    assert(keys_view(keys@) =~= wanted);
    keys
}

/// The cost of joining a factor to what is already joined.
fn estimate_attach_cost(
    output: &GraphPattern,
    output_types: &VariableTypes,
    factor: &GraphPattern,
    factor_types: &VariableTypes,
    input_types: &VariableTypes,
    limits: &Limits,
) -> (r: usize)
    requires
        factor_types@ == infer(factor@, input_types@),
    ensures
        r == attach_cost(output@, output_types@, factor@, input_types@, *limits),
{
    let output_size = estimate_for_loop_entry_size(output, input_types, limits);
    if is_fit_for_for_loop_join(factor, input_types, output_types, output_size, limits) {
        estimate_lateral_cost(output, output_types, factor, input_types, limits)
    } else {
        let keys = join_key_variables(output_types, factor_types, input_types);
        assert(names(keys@).len() == keys@.len());
        estimate_join_cost(
            output,
            factor,
            &JoinAlgorithm::HashBuildLeftProbeRight { keys },
            input_types,
            limits,
        )
    }
}

/// The keys by which the next of some joined patterns is chosen.
fn next_sort_keys(
    factors: &Vec<GraphPattern>,
    factor_types: &Vec<VariableTypes>,
    remaining: &Vec<bool>,
    output: &GraphPattern,
    output_types: &VariableTypes,
    input_types: &VariableTypes,
    limits: &Limits,
) -> (r: Vec<Option<(usize, usize)>>)
    requires
        remaining@.len() == factors@.len(),
        types_match(factor_types@, plans_view(factors@), input_types@),
    ensures
        keys_view(r@) == next_keys(
            plans_view(factors@),
            remaining@,
            output@,
            output_types@,
            input_types@,
            *limits,
        ),
{
    let ghost given = plans_view(factors@);
    let ghost wanted = next_keys(
        given,
        remaining@,
        output@,
        output_types@,
        input_types@,
        *limits,
    );
    let mut keys: Vec<Option<(usize, usize)>> = Vec::new();
    for i in 0..factors.len()
        invariant
            given == plans_view(factors@),
            remaining@.len() == factors@.len(),
            types_match(factor_types@, given, input_types@),
            wanted == next_keys(
                given,
                remaining@,
                output@,
                output_types@,
                input_types@,
                *limits,
            ),
            keys@.len() == i,
            forall|j: int| 0 <= j < i ==> key_view(#[trigger] keys@[j]) == wanted[j],
    {
        assert(given[i as int] == factors@[i as int]@);
        assert(factor_types@[i as int]@ == infer(given[i as int], input_types@));
        let key = if remaining[i] && has_common_variables(
            output_types,
            &factor_types[i],
            input_types,
        ) {
            Some(
                (
                    estimate_attach_cost(
                        output,
                        output_types,
                        &factors[i],
                        &factor_types[i],
                        input_types,
                        limits,
                    ),
                    graph_pattern_reordering_penalty(&factors[i], output_types),
                ),
            )
        } else {
            None
        };
        keys.push(key);
    }
    assert(keys_view(keys@) =~= wanted);
    keys
}

/// The join of two patterns that are not connected, the smaller one first.
fn cross_join(
    left: GraphPattern,
    right: GraphPattern,
    input_types: &VariableTypes,
    limits: &Limits,
) -> (r: GraphPattern)
    ensures
        r@ == cross(left@, right@, input_types@, *limits),
{
    let left_types = infer_graph_pattern_types(&left, input_types.clone());
    let right_types = infer_graph_pattern_types(&right, input_types.clone());
    let keys = join_key_variables(&left_types, &right_types, input_types);
    let algorithm = JoinAlgorithm::HashBuildLeftProbeRight { keys };
    if estimate_graph_pattern_size(&left, input_types, limits) <= estimate_graph_pattern_size(
        &right,
        input_types,
        limits,
    ) {
        GraphPattern::join(left, right, algorithm)
    } else {
        GraphPattern::join(right, left, algorithm)
    }
}

fn cross_all(outputs: Vec<GraphPattern>, input_types: &VariableTypes, limits: &Limits) -> (r:
    GraphPattern)
    ensures
        r@ == crossed(plans_view(outputs@), input_types@, *limits),
{
    let ghost given = plans_view(outputs@);
    let mut result: Option<GraphPattern> = None;
    for output in it: outputs
        invariant
            it.seq() == outputs@,
            given == plans_view(outputs@),
            result is Some == (it.index() > 0),
            result matches Some(pattern) ==> pattern@ == crossed(
                given.take(it.index() as int),
                input_types@,
                *limits,
            ),
    {
        let ghost n = it.index() as int;
        proof {
            assert(given[n] == output@);
            assert(given.take(n + 1).drop_last() =~= given.take(n));
        }
        result = match result {
            None => Some(output),
            Some(left) => Some(cross_join(left, output, input_types, limits)),
        };
    }
    assert(given.take(given.len() as int) =~= given);
    match result {
        Some(pattern) => pattern,
        None => GraphPattern::empty_singleton(),
    }
}

fn is_any_guarded(factors: &Vec<GraphPattern>, input_types: &VariableTypes, limits: &Limits) -> (r:
    bool)
    ensures
        r == any_seeded(plans_view(factors@), input_types@, *limits),
{
    let ghost given = plans_view(factors@);
    for i in 0..factors.len()
        invariant
            given == plans_view(factors@),
            forall|j: int|
                0 <= j < i ==> !has_seeded_subclass_lookup(
                    #[trigger] given[j],
                    input_types@,
                    *limits,
                ),
    {
        assert(given[i as int] == factors@[i as int]@);
        if should_avoid_singleton_union_duplication(&factors[i], input_types, limits) {
            assert(has_seeded_subclass_lookup(given[i as int], input_types@, *limits));
            return true;
        }
    }
    false
}

/// Several joined patterns and a union with one row without values, where the
/// patterns are better not evaluated twice, if there is a way.
fn split_guarded_factors(
    base_factors: &Vec<GraphPattern>,
    base_join: &GraphPattern,
    others: &Vec<GraphPattern>,
    input_types: &VariableTypes,
    limits: &Limits,
) -> (r: Option<GraphPattern>)
    ensures
        guarded_split(
            plans_view(base_factors@),
            base_join@,
            plans_view(others@),
            input_types@,
            *limits,
        ) == match r {
            Some(pattern) => Some(pattern@),
            None => None,
        },
{
    if !should_avoid_singleton_union_duplication(base_join, input_types, limits) {
        return None;
    }
    if is_any_guarded(base_factors, input_types, limits) {
        let rewritten = rewrite_flat_join_with_guarded_singleton_union_branch(
            clone_all(base_factors),
            clone_all(others),
            input_types,
            limits,
        );
        if rewritten.is_some() {
            return rewritten;
        }
    }
    let mut reordered: Vec<GraphPattern> = Vec::new();
    assert(plans_view(reordered@) =~= seq![]);
    flatten_inner_join_factors(base_join.clone(), &mut reordered);
    assert(plans_view(reordered@) =~= join_factors(base_join@));
    rewrite_flat_join_with_guarded_singleton_union_branch(
        reordered,
        clone_all(others),
        input_types,
        limits,
    )
}

/// A left join of two patterns that are reordered already.
fn reorder_left_join_of(
    left: GraphPattern,
    right: GraphPattern,
    expression: Expression,
    input_types: &VariableTypes,
    limits: &Limits,
) -> (r: GraphPattern)
    ensures
        r@ == reorder_left_join(left@, right@, expression@, input_types@, *limits),
{
    let left_types = infer_graph_pattern_types(&left, input_types.clone());
    let right_types = infer_graph_pattern_types(&right, input_types.clone());
    let keys = join_key_variables(&left_types, &right_types, input_types);
    let always = match expression.effective_boolean_value() {
        Some(value) => value,
        None => false,
    };
    if always {
        match split_singleton_union_branches(&right) {
            Some((singleton_branch_count, others)) => {
                if singleton_branch_count == 1 {
                    assert(plans_view(others@).len() == others@.len());
                    if should_avoid_singleton_union_duplication(&left, input_types, limits) {
                        return GraphPattern::left_join(
                            left,
                            right,
                            expression,
                            LeftJoinAlgorithm::HashBuildRightProbeLeft { keys },
                        );
                    }
                    if others.len() == 0 {
                        return left;
                    }
                    let rest = join_on_common_variables(
                        left.clone(),
                        GraphPattern::union_all(others),
                        input_types,
                    );
                    let ghost (l, r) = (left@, rest@);
                    let mut both: Vec<GraphPattern> = Vec::new();
                    both.push(left);
                    both.push(rest);
                    assert(plans_view(both@) =~= seq![l, r]);
                    return GraphPattern::union_all(both);
                }
            },
            None => {},
        }
    }
    let left_size = estimate_graph_pattern_size(&left, input_types, limits);
    if is_fit_for_for_loop_join(&right, input_types, &left_types, left_size, limits)
        && has_common_variables(&left_types, &right_types, input_types) {
        let none: Vec<Variable> = Vec::new();
        assert(names(none@) =~= seq![]);
        return GraphPattern::lateral(
            left,
            GraphPattern::left_join(
                GraphPattern::empty_singleton(),
                right,
                expression,
                LeftJoinAlgorithm::HashBuildRightProbeLeft { keys: none },
            ),
        );
    }
    GraphPattern::left_join(
        left,
        right,
        expression,
        LeftJoinAlgorithm::HashBuildRightProbeLeft { keys },
    )
}

/// The parts of a plan that is no join are below it.
pub proof fn lemma_parts_lower(plan: Plan)
    ensures
        match plan {
            Plan::Lateral { left, right }
            | Plan::LeftJoin { left, right, .. }
            | Plan::Join { left, right, .. }
            | Plan::Minus { left, right, .. } => lower(*left, plan) && lower(*right, plan),
            Plan::Filter { inner, .. }
            | Plan::Extend { inner, .. }
            | Plan::OrderBy { inner, .. }
            | Plan::Project { inner, .. }
            | Plan::Distinct { inner }
            | Plan::Reduced { inner }
            | Plan::Slice { inner, .. }
            | Plan::Group { inner, .. } => lower(*inner, plan),
            Plan::Union { inner } => forall|i: int|
                0 <= i < inner.len() ==> lower(#[trigger] inner[i], plan),
            _ => true,
        },
{
    match plan {
        Plan::Lateral { left, right } | Plan::Join { left, right, .. } => {
            lemma_weight_positive(*left);
            lemma_weight_positive(*right);
            let (l, r) = (weight(*left), weight(*right));
            assert(l < l * r && r < l * r) by (nonlinear_arith)
                requires
                    l >= 3,
                    r >= 3,
            ;
        },
        Plan::LeftJoin { left, right, .. } => {
            lemma_weight_positive(*left);
            lemma_weight_positive(*right);
            let (l, k, r) = (weight(*left), left_weight(*left), weight(*right));
            assert(r < k * (r + 1)) by (nonlinear_arith)
                requires
                    k >= 1,
            ;
            if k == l {
                assert(l < l * (r + 1)) by (nonlinear_arith)
                    requires
                        l >= 3,
                        r >= 3,
                ;
            } else {
                assert(weight(*left) == 3);
                assert(1 * (r + 1) == r + 1) by (nonlinear_arith);
            }
        },
        Plan::Minus { left, right, .. } => {
            lemma_weight_positive(*left);
            lemma_weight_positive(*right);
        },
        Plan::Union { inner } => {
            assert forall|i: int| 0 <= i < inner.len() implies lower(#[trigger] inner[i], plan) by {
                lemma_item_weight(inner, i);
                lemma_item_depth(inner, i);
            }
        },
        _ => {},
    }
}

/// Each of several joined plans is below the join.
proof fn lemma_factor_lower(factors: Seq<Plan>, i: int, plan: Plan)
    requires
        0 <= i < factors.len(),
        factors.len() > 1,
        weight_product(factors) <= weight(plan),
        max_depth(factors) <= depth(plan),
    ensures
        lower(factors[i], plan),
{
    lemma_product_without(factors, i);
    lemma_product_positive(factors.remove(i));
    lemma_weight_positive(factors[i]);
    lemma_item_depth(factors, i);
    let (a, b) = (weight_product(factors.remove(i)), weight(factors[i]));
    assert(b < a * b) by (nonlinear_arith)
        requires
            a >= 3,
            b >= 3,
    ;
}

impl Optimizer {
    /// Optimizes a pattern with the default limits.
    pub fn optimize_graph_pattern(pattern: GraphPattern) -> (r: GraphPattern)
        ensures
            r@ == optimize(pattern@, seq![], default_limits()),
    {
        Self::optimize_graph_pattern_with_limits(pattern, &Limits::default())
    }

    /// Optimizes a pattern.
    pub fn optimize_graph_pattern_with_limits(pattern: GraphPattern, limits: &Limits) -> (r:
        GraphPattern)
        ensures
            r@ == optimize(pattern@, seq![], *limits),
    {
        Self::optimize_graph_pattern_with_input_types(pattern, &VariableTypes::default(), limits)
    }

    /// Optimizes a pattern that is evaluated where the variables have the given types.
    pub fn optimize_graph_pattern_with_input_types(
        pattern: GraphPattern,
        input_types: &VariableTypes,
        limits: &Limits,
    ) -> (r: GraphPattern)
        ensures
            r@ == optimize(pattern@, input_types@, *limits),
        decreases depth(pattern@) + 1, 0nat, pattern@, 0nat,
    {
        proof {
            lemma_normalize_depth(pattern@, input_types@);
        }
        let pattern = normalize_pattern(pattern, input_types);
        let pattern = Self::reorder_joins(pattern, input_types, limits);
        let none: Vec<Expression> = Vec::new();
        assert(exprs_view(none@) =~= seq![]);
        push_filters(pattern, none, input_types)
    }

    /// Puts the joins of a pattern in a good order.
    pub fn reorder_joins(pattern: GraphPattern, input_types: &VariableTypes, limits: &Limits) -> (r:
        GraphPattern)
        ensures
            r@ == reorder(pattern@, input_types@, *limits),
        decreases depth(pattern@), weight(pattern@), pattern@, 9nat,
    {
        let ghost plan = pattern@;
        let ghost rec = reorder_below(plan, *limits);
        proof {
            lemma_parts_lower(plan);
            lemma_weight_positive(plan);
        }
        match pattern {
            GraphPattern::Join { left, right, .. } => Self::reorder_inner_join(
                *left,
                *right,
                input_types,
                limits,
                Ghost(plan),
            ),
            GraphPattern::Lateral { left, right } => {
                let left_types = infer_graph_pattern_types(&left, input_types.clone());
                let left = Self::reorder_joins(*left, input_types, limits);
                let right = Self::reorder_joins(*right, &left_types, limits);
                GraphPattern::lateral(left, right)
            },
            GraphPattern::LeftJoin { left, right, expression, .. } => {
                let left = Self::reorder_joins(*left, input_types, limits);
                let right = Self::reorder_joins(*right, input_types, limits);
                reorder_left_join_of(left, right, expression, input_types, limits)
            },
            GraphPattern::Minus { left, right, .. } => {
                let left = Self::reorder_joins(*left, input_types, limits);
                let left_types = infer_graph_pattern_types(&left, input_types.clone());
                let right = Self::reorder_joins(*right, input_types, limits);
                let right_types = infer_graph_pattern_types(&right, input_types.clone());
                let keys = join_key_variables(&left_types, &right_types, input_types);
                GraphPattern::minus(left, right, MinusAlgorithm::HashBuildRightProbeLeft { keys })
            },
            GraphPattern::Extend { inner, expression, variable } => GraphPattern::extend(
                Self::reorder_joins(*inner, input_types, limits),
                variable,
                expression,
            ),
            GraphPattern::Filter { inner, expression } => {
                let inner = Self::reorder_joins(*inner, input_types, limits);
                let inner_types = infer_graph_pattern_types(&inner, input_types.clone());
                proof {
                    lemma_exists_below(expression@, inner_types@, *limits, plan);
                }
                let expression = Self::reorder_filter_exists_expressions(
                    expression,
                    &inner_types,
                    limits,
                );
                GraphPattern::filter(inner, expression)
            },
            GraphPattern::Union { inner } => GraphPattern::union_all(
                Self::reorder_all(inner, input_types, limits, Ghost(plan)),
            ),
            GraphPattern::Slice { inner, start, length } => GraphPattern::slice(
                Self::reorder_joins(*inner, input_types, limits),
                start,
                length,
            ),
            GraphPattern::Distinct { inner } => GraphPattern::distinct(
                Self::reorder_joins(*inner, input_types, limits),
            ),
            GraphPattern::Reduced { inner } => GraphPattern::reduced(
                Self::reorder_joins(*inner, input_types, limits),
            ),
            GraphPattern::Project { inner, variables } => GraphPattern::project(
                Self::reorder_joins(*inner, input_types, limits),
                variables,
            ),
            GraphPattern::OrderBy { inner, expression } => GraphPattern::order_by(
                Self::reorder_joins(*inner, input_types, limits),
                expression,
            ),
            GraphPattern::Group { inner, variables, aggregates } => GraphPattern::group(
                Self::reorder_joins(*inner, input_types, limits),
                variables,
                aggregates,
            ),
            // Nothing is known of the size of remote data.
            other => other,
        }
    }

    /// Reorders each of some patterns that are below a plan.
    fn reorder_all(
        patterns: Vec<GraphPattern>,
        input_types: &VariableTypes,
        limits: &Limits,
        Ghost(plan): Ghost<Plan>,
    ) -> (r: Vec<GraphPattern>)
        requires
            forall|i: int|
                0 <= i < patterns@.len() ==> lower(#[trigger] plans_view(patterns@)[i], plan),
        ensures
            plans_view(r@) == reorder_each(
                plans_view(patterns@),
                input_types@,
                reorder_below(plan, *limits),
            ),
        decreases depth(plan), weight(plan), plan, 0nat,
    {
        let ghost given = plans_view(patterns@);
        let ghost rec = reorder_below(plan, *limits);
        let mut result: Vec<GraphPattern> = Vec::new();
        for pattern in it: patterns
            invariant
                it.seq() == patterns@,
                given == plans_view(patterns@),
                rec == reorder_below(plan, *limits),
                forall|i: int| 0 <= i < given.len() ==> lower(#[trigger] given[i], plan),
                result@.len() == it.index(),
                forall|j: int|
                    0 <= j < it.index() ==> (#[trigger] result@[j])@ == rec(
                        given[j],
                        input_types@,
                    ),
        {
            proof {
                let n = it.index() as int;
                assert(given[n] == pattern@);
                assert(lower(given[n], plan));
            }
            result.push(Self::reorder_joins(pattern, input_types, limits));
        }
        assert(plans_view(result@) =~= reorder_each(given, input_types@, rec));
        result
    }

    /// Puts an inner join in a good order.
    fn reorder_inner_join(
        left: GraphPattern,
        right: GraphPattern,
        input_types: &VariableTypes,
        limits: &Limits,
        Ghost(plan): Ghost<Plan>,
    ) -> (r: GraphPattern)
        requires
            plan matches Plan::Join { left: l, right: r, .. } && *l == left@ && *r == right@,
        ensures
            r@ == reorder_join(
                left@,
                right@,
                input_types@,
                *limits,
                reorder_below(plan, *limits),
            ),
        decreases depth(plan), weight(plan), plan, 8nat,
    {
        let ghost rec = reorder_below(plan, *limits);
        proof {
            lemma_parts_lower(plan);
            lemma_filter_instead_of_either_measure(left@, right@, input_types@, *limits);
            lemma_distribute_either_measure(left@, right@, input_types@, *limits);
        }
        match rewrite_inner_join_with_correlated_filter_only_union_branch(
            left.clone(),
            right.clone(),
            input_types,
            limits,
        ) {
            Some(rewritten) => {
                return Self::reorder_joins(rewritten, input_types, limits);
            },
            None => {},
        }
        match rewrite_inner_join_with_small_factor_union(
            left.clone(),
            right.clone(),
            input_types,
            limits,
        ) {
            Some(rewritten) => {
                return Self::reorder_joins(rewritten, input_types, limits);
            },
            None => {},
        }
        let reordered_left = Self::reorder_joins(left.clone(), input_types, limits);
        let reordered_right = Self::reorder_joins(right.clone(), input_types, limits);
        proof {
            lemma_split_off_singleton_measure(
                left@,
                right@,
                reordered_left@,
                reordered_right@,
                input_types@,
                *limits,
            );
        }
        match rewrite_inner_join_with_singleton_union_branch(
            left.clone(),
            right.clone(),
            &reordered_left,
            &reordered_right,
            input_types,
            limits,
        ) {
            Some(rewritten) => {
                return Self::reorder_joins(rewritten, input_types, limits);
            },
            None => {},
        }
        match guarded_singleton_union_inner_join_fallback(
            reordered_left,
            reordered_right,
            input_types,
            limits,
        ) {
            Some(fallback) => {
                return fallback;
            },
            None => {},
        }
        let ghost (l, r) = (left@, right@);
        let mut factors: Vec<GraphPattern> = Vec::new();
        assert(plans_view(factors@) =~= seq![]);
        flatten_inner_join_factors(left, &mut factors);
        flatten_inner_join_factors(right, &mut factors);
        assert(plans_view(factors@) =~= join_factors(l) + join_factors(r));
        proof {
            let all = plans_view(factors@);
            lemma_join_factors_measure(plan);
            assert(join_factors(plan) == all);
            lemma_has_factor(l);
            lemma_has_factor(r);
            assert forall|i: int| 0 <= i < factors@.len() implies lower(
                #[trigger] plans_view(factors@)[i],
                plan,
            ) by {
                lemma_factor_lower(all, i, plan);
            }
            lemma_reorder_below_shrinks(plan, *limits);
            lemma_reordered_factors_measure(l, r, input_types@, rec);
        }
        // Joins inside the factors, such as those in the branches of a union, are
        // reordered first.
        let reordered = Self::reorder_all(factors, input_types, limits, Ghost(plan));
        Self::reorder_flat_join(deduplicate(reordered), input_types, limits, Ghost(plan))
    }

    /// Puts several joined patterns in a good order.
    fn reorder_flat_join(
        factors: Vec<GraphPattern>,
        input_types: &VariableTypes,
        limits: &Limits,
        Ghost(plan): Ghost<Plan>,
    ) -> (r: GraphPattern)
        requires
            factors@.len() > 0,
            weight_product(plans_view(factors@)) <= weight(plan),
            max_depth(plans_view(factors@)) <= depth(plan),
        ensures
            r@ == reorder_factors(
                plans_view(factors@),
                input_types@,
                *limits,
                reorder_below(plan, *limits),
            ),
        decreases depth(plan), weight(plan), plan, 7nat,
    {
        let ghost given = plans_view(factors@);
        assert(given.len() == factors@.len());
        proof {
            lemma_distribute_flat_measure(given, input_types@, *limits);
            lemma_first_where(given, |factor: Plan| has_one_singleton(factor));
        }
        match rewrite_flat_join_with_small_factor_union(clone_all(&factors), input_types, limits) {
            Some(rewritten) => {
                return Self::reorder_joins(rewritten, input_types, limits);
            },
            None => {},
        }
        if factors.len() > 2 {
            match find_singleton_union(&factors) {
                Some((index, others)) => {
                    return Self::reorder_without_singleton(
                        factors,
                        index,
                        others,
                        input_types,
                        limits,
                        Ghost(plan),
                    );
                },
                None => {},
            }
        }
        Self::join_greedily(factors, input_types, limits, Ghost(plan))
    }

    /// Several joined patterns, one of which is a union with one row without values.
    #[verifier::spinoff_prover]
    #[verifier::rlimit(80)]
    fn reorder_without_singleton(
        factors: Vec<GraphPattern>,
        index: usize,
        others: Vec<GraphPattern>,
        input_types: &VariableTypes,
        limits: &Limits,
        Ghost(plan): Ghost<Plan>,
    ) -> (r: GraphPattern)
        requires
            factors@.len() > 2,
            index < factors@.len(),
            has_one_singleton(plans_view(factors@)[index as int]),
            plans_view(others@) == singleton_others(plans_view(factors@)[index as int]),
            weight_product(plans_view(factors@)) <= weight(plan),
            max_depth(plans_view(factors@)) <= depth(plan),
        ensures
            r@ == without_singleton(
                plans_view(factors@),
                index as int,
                input_types@,
                *limits,
                reorder_below(plan, *limits),
            ),
        decreases depth(plan), weight(plan), plan, 6nat,
    {
        let ghost given = plans_view(factors@);
        proof {
            lemma_base_measure(given, index as int);
        }
        let mut base_factors = factors;
        base_factors.remove(index);
        let ghost base = given.remove(index as int);
        assert(plans_view(base_factors@) =~= base);
        let base_join = match join_all_factors(clone_all(&base_factors)) {
            Some(pattern) => pattern,
            None => GraphPattern::empty_singleton(),
        };
        assert(plans_view(base_factors@).len() == base_factors@.len());
        let base_join = Self::reorder_joins(base_join, input_types, limits);
        assert(plans_view(others@).len() == others@.len());
        if others.len() == 0 {
            return base_join;
        }
        match split_guarded_factors(&base_factors, &base_join, &others, input_types, limits) {
            Some(pattern) => {
                return pattern;
            },
            None => {},
        }
        Self::reorder_other_branches(
            base_factors,
            base_join,
            others,
            input_types,
            limits,
            Ghost(plan),
        )
    }

    /// A join and, beside it, the same with the other branches of a union.
    #[verifier::spinoff_prover]
    #[verifier::rlimit(40)]
    fn reorder_other_branches(
        base_factors: Vec<GraphPattern>,
        base_join: GraphPattern,
        others: Vec<GraphPattern>,
        input_types: &VariableTypes,
        limits: &Limits,
        Ghost(plan): Ghost<Plan>,
    ) -> (r: GraphPattern)
        requires
            ({
                let branch = plans_view(base_factors@).push(union_all(plans_view(others@)));
                weight(joined(branch)) < weight(plan) && depth(joined(branch)) <= depth(plan)
            }),
        ensures
            r@ == union_all(
                seq![
                    base_join@,
                    reorder_below(plan, *limits)(
                        joined(plans_view(base_factors@).push(union_all(plans_view(others@)))),
                        input_types@,
                    ),
                ],
            ),
        decreases depth(plan), weight(plan), plan, 5nat,
    {
        let ghost base = plans_view(base_factors@);
        let mut branch_factors = base_factors;
        let right = GraphPattern::union_all(others);
        let ghost right_plan = right@;
        branch_factors.push(right);
        assert(plans_view(branch_factors@) =~= base.push(right_plan));
        let branch_join = match join_all_factors(branch_factors) {
            Some(pattern) => pattern,
            None => GraphPattern::empty_singleton(),
        };
        let branch_join = Self::reorder_joins(branch_join, input_types, limits);
        let ghost (b, c) = (base_join@, branch_join@);
        let mut both: Vec<GraphPattern> = Vec::new();
        both.push(base_join);
        both.push(branch_join);
        assert(plans_view(both@) =~= seq![b, c]);
        GraphPattern::union_all(both)
    }

    /// Joins several patterns, the cheapest join first.
    fn join_greedily(
        factors: Vec<GraphPattern>,
        input_types: &VariableTypes,
        limits: &Limits,
        Ghost(plan): Ghost<Plan>,
    ) -> (r: GraphPattern)
        requires
            factors@.len() > 0,
            weight_product(plans_view(factors@)) <= weight(plan),
            max_depth(plans_view(factors@)) <= depth(plan),
        ensures
            r@ == greedy_join(
                plans_view(factors@),
                input_types@,
                *limits,
                reorder_below(plan, *limits),
            ),
        decreases depth(plan), weight(plan), plan, 5nat,
    {
        let ghost given = plans_view(factors@);
        let ghost types = input_types@;
        let ghost rec = reorder_below(plan, *limits);
        let factor_types = infer_all(&factors, input_types);
        let count: usize = factors.len();
        let mut remaining: Vec<bool> = Vec::new();
        for i in 0..count
            invariant
                remaining@.len() == i,
                forall|j: int| 0 <= j < i ==> #[trigger] remaining@[j],
        {
            remaining.push(true);
        }
        assert(remaining@ =~= everything_remains(given.len()));
        let mut outputs: Vec<GraphPattern> = Vec::new();
        let ghost goal = components(given, remaining@, types, *limits, rec, given.len());
        assert(goal =~= plans_view(outputs@) + goal);
        let mut done = false;
        for step in 0..count
            invariant
                given == plans_view(factors@),
                types == input_types@,
                rec == reorder_below(plan, *limits),
                count == given.len(),
                count == factors@.len(),
                remaining@.len() == count,
                weight_product(given) <= weight(plan),
                max_depth(given) <= depth(plan),
                types_match(factor_types@, given, types),
                done ==> goal == plans_view(outputs@),
                !done ==> goal == plans_view(outputs@) + components(
                    given,
                    remaining@,
                    types,
                    *limits,
                    rec,
                    (count - step) as nat,
                ),
        {
            if !done {
                let ghost before = outputs@;
                let keys = entry_sort_keys(&factors, &remaining, input_types, limits);
                proof {
                    lemma_least(entry_keys(given, remaining@, types, *limits));
                }
                match pick_least(&keys) {
                    Some(entry) => {
                        remaining.set(entry, false);
                        let ghost taken = remaining@;
                        let (output, rest) = Self::grow_component(
                            &factors,
                            &factor_types,
                            entry,
                            remaining,
                            input_types,
                            limits,
                            Ghost(plan),
                        );
                        let ghost grown = output@;
                        outputs.push(output);
                        remaining = rest;
                        assert(plans_view(outputs@) =~= plans_view(before) + seq![grown]);
                        assert(goal =~= plans_view(outputs@) + components(
                            given,
                            remaining@,
                            types,
                            *limits,
                            rec,
                            (count - step - 1) as nat,
                        ));
                    },
                    None => {
                        done = true;
                        assert(goal =~= plans_view(outputs@));
                    },
                }
            }
        }
        assert(goal =~= plans_view(outputs@));
        cross_all(outputs, input_types, limits)
    }

    /// Joins a factor with all the remaining ones that it is connected to.
    fn grow_component(
        factors: &Vec<GraphPattern>,
        factor_types: &Vec<VariableTypes>,
        entry: usize,
        remaining: Vec<bool>,
        input_types: &VariableTypes,
        limits: &Limits,
        Ghost(plan): Ghost<Plan>,
    ) -> (r: (GraphPattern, Vec<bool>))
        requires
            entry < factors@.len(),
            remaining@.len() == factors@.len(),
            !remaining@[entry as int],
            types_match(factor_types@, plans_view(factors@), input_types@),
            weight_product(plans_view(factors@)) <= weight(plan),
            max_depth(plans_view(factors@)) <= depth(plan),
        ensures
            r.1@.len() == factors@.len(),
            (r.0@, r.1@) == grow(
                plans_view(factors@),
                plans_view(factors@)[entry as int],
                infer(plans_view(factors@)[entry as int], input_types@),
                remaining@,
                input_types@,
                *limits,
                reorder_below(plan, *limits),
                factors@.len(),
            ),
        decreases depth(plan), weight(plan), plan, 4nat,
    {
        let ghost given = plans_view(factors@);
        let ghost types = input_types@;
        let ghost rec = reorder_below(plan, *limits);
        let count: usize = factors.len();
        assert(given[entry as int] == factors@[entry as int]@);
        assert(factor_types@[entry as int]@ == infer(given[entry as int], types));
        let ghost goal = grow(
            given,
            given[entry as int],
            infer(given[entry as int], types),
            remaining@,
            types,
            *limits,
            rec,
            given.len(),
        );
        let mut remaining = remaining;
        let mut output = factors[entry].clone();
        let mut output_types = factor_types[entry].clone();
        let mut done = false;
        for step in 0..count
            invariant
                given == plans_view(factors@),
                types == input_types@,
                rec == reorder_below(plan, *limits),
                count == given.len(),
                count == factors@.len(),
                entry < count,
                remaining@.len() == count,
                !remaining@[entry as int],
                weight_product(given) <= weight(plan),
                max_depth(given) <= depth(plan),
                types_match(factor_types@, given, types),
                done ==> goal == (output@, remaining@),
                !done ==> goal == grow(
                    given,
                    output@,
                    output_types@,
                    remaining@,
                    types,
                    *limits,
                    rec,
                    (count - step) as nat,
                ),
        {
            if !done {
                let keys = next_sort_keys(
                    factors,
                    factor_types,
                    &remaining,
                    &output,
                    &output_types,
                    input_types,
                    limits,
                );
                let ghost wanted = next_keys(
                    given,
                    remaining@,
                    output@,
                    output_types@,
                    types,
                    *limits,
                );
                proof {
                    lemma_least(wanted);
                }
                match pick_least(&keys) {
                    Some(next) => {
                        proof {
                            assert(wanted[next as int] is Some);
                            assert(next != entry);
                            assert(given[next as int] == factors@[next as int]@);
                            assert(factor_types@[next as int]@ == infer(given[next as int], types));
                            lemma_factor_lower(given, next as int, plan);
                        }
                        remaining.set(next, false);
                        let factor = factors[next].clone();
                        let output_size = estimate_for_loop_entry_size(
                            &output,
                            input_types,
                            limits,
                        );
                        if is_fit_for_for_loop_join(
                            &factor,
                            input_types,
                            &output_types,
                            output_size,
                            limits,
                        ) {
                            let inner = Self::reorder_joins(factor, &output_types, limits);
                            output = GraphPattern::lateral(output, inner);
                        } else {
                            let keys = join_key_variables(
                                &output_types,
                                &factor_types[next],
                                input_types,
                            );
                            output = GraphPattern::join(
                                output,
                                factor,
                                JoinAlgorithm::HashBuildLeftProbeRight { keys },
                            );
                        }
                        output_types = output_types.intersect_with(factor_types[next].clone());
                    },
                    None => {
                        done = true;
                    },
                }
            }
        }
        (output, remaining)
    }

    fn reorder_all_filter_exists_expressions(
        expressions: Vec<Expression>,
        input_types: &VariableTypes,
        limits: &Limits,
    ) -> (r: Vec<Expression>)
        ensures
            exprs_view(r@) == reorder_all_exists(
                exprs_view(expressions@),
                input_types@,
                *limits,
                optimizer(*limits),
            ),
        decreases exprs_depth(exprs_view(expressions@)), 0nat, exprs_view(expressions@), 0nat,
    {
        let ghost given = exprs_view(expressions@);
        let ghost optimized = optimizer(*limits);
        let mut result: Vec<Expression> = Vec::new();
        for expression in it: expressions
            invariant
                it.seq() == expressions@,
                given == exprs_view(expressions@),
                optimized == optimizer(*limits),
                result@.len() == it.index(),
                forall|j: int|
                    0 <= j < it.index() ==> (#[trigger] result@[j])@ == reorder_exists(
                        given[j],
                        input_types@,
                        *limits,
                        optimized,
                    ),
        {
            proof {
                let n = it.index() as int;
                assert(given[n] == expression@);
                lemma_exprs_depth(given, exprs_depth(given));
                assert(expr_depth(given[n]) <= exprs_depth(given));
                assert(decreases_to!(given => given[n]));
            }
            result.push(
                Self::reorder_filter_exists_expressions(expression, input_types, limits),
            );
        }
        assert(exprs_view(result@) =~= reorder_all_exists(
            given,
            input_types@,
            *limits,
            optimized,
        ));
        result
    }

    /// Optimizes the patterns of the EXISTS in an expression that depend much on
    /// their surroundings.
    pub fn reorder_filter_exists_expressions(
        expression: Expression,
        input_types: &VariableTypes,
        limits: &Limits,
    ) -> (r: Expression)
        ensures
            r@ == reorder_exists(expression@, input_types@, *limits, optimizer(*limits)),
        decreases expr_depth(expression@), 0nat, expression@, 0nat,
    {
        let ghost given = expression@;
        proof {
            lemma_expr_parts(given);
        }
        match expression {
            Expression::Or(inner) => Expression::or_all(
                Self::reorder_all_filter_exists_expressions(inner, input_types, limits),
            ),
            Expression::And(inner) => Expression::and_all(
                Self::reorder_all_filter_exists_expressions(inner, input_types, limits),
            ),
            Expression::Equal(left, right) => Expression::equal(
                Self::reorder_filter_exists_expressions(*left, input_types, limits),
                Self::reorder_filter_exists_expressions(*right, input_types, limits),
            ),
            Expression::SameTerm(left, right) => Expression::same_term(
                Self::reorder_filter_exists_expressions(*left, input_types, limits),
                Self::reorder_filter_exists_expressions(*right, input_types, limits),
            ),
            Expression::Greater(left, right) => Expression::Greater(
                Box::new(Self::reorder_filter_exists_expressions(*left, input_types, limits)),
                Box::new(Self::reorder_filter_exists_expressions(*right, input_types, limits)),
            ),
            Expression::GreaterOrEqual(left, right) => Expression::GreaterOrEqual(
                Box::new(Self::reorder_filter_exists_expressions(*left, input_types, limits)),
                Box::new(Self::reorder_filter_exists_expressions(*right, input_types, limits)),
            ),
            Expression::Less(left, right) => Expression::Less(
                Box::new(Self::reorder_filter_exists_expressions(*left, input_types, limits)),
                Box::new(Self::reorder_filter_exists_expressions(*right, input_types, limits)),
            ),
            Expression::LessOrEqual(left, right) => Expression::LessOrEqual(
                Box::new(Self::reorder_filter_exists_expressions(*left, input_types, limits)),
                Box::new(Self::reorder_filter_exists_expressions(*right, input_types, limits)),
            ),
            Expression::Add(left, right) => Expression::Add(
                Box::new(Self::reorder_filter_exists_expressions(*left, input_types, limits)),
                Box::new(Self::reorder_filter_exists_expressions(*right, input_types, limits)),
            ),
            Expression::Subtract(left, right) => Expression::Subtract(
                Box::new(Self::reorder_filter_exists_expressions(*left, input_types, limits)),
                Box::new(Self::reorder_filter_exists_expressions(*right, input_types, limits)),
            ),
            Expression::Multiply(left, right) => Expression::Multiply(
                Box::new(Self::reorder_filter_exists_expressions(*left, input_types, limits)),
                Box::new(Self::reorder_filter_exists_expressions(*right, input_types, limits)),
            ),
            Expression::Divide(left, right) => Expression::Divide(
                Box::new(Self::reorder_filter_exists_expressions(*left, input_types, limits)),
                Box::new(Self::reorder_filter_exists_expressions(*right, input_types, limits)),
            ),
            Expression::UnaryPlus(inner) => Expression::UnaryPlus(
                Box::new(Self::reorder_filter_exists_expressions(*inner, input_types, limits)),
            ),
            Expression::UnaryMinus(inner) => Expression::UnaryMinus(
                Box::new(Self::reorder_filter_exists_expressions(*inner, input_types, limits)),
            ),
            Expression::Not(inner) => Expression::negate(
                Self::reorder_filter_exists_expressions(*inner, input_types, limits),
            ),
            Expression::If(condition, then_case, else_case) => Expression::if_cond(
                Self::reorder_filter_exists_expressions(*condition, input_types, limits),
                Self::reorder_filter_exists_expressions(*then_case, input_types, limits),
                Self::reorder_filter_exists_expressions(*else_case, input_types, limits),
            ),
            Expression::Coalesce(inner) => Expression::Coalesce(
                Self::reorder_all_filter_exists_expressions(inner, input_types, limits),
            ),
            Expression::Exists(inner) => {
                if should_reorder_highly_correlated_filter_exists(&inner, input_types, limits) {
                    Expression::exists_pattern(
                        Self::optimize_graph_pattern_with_input_types(*inner, input_types, limits),
                    )
                } else {
                    Expression::exists_pattern(*inner)
                }
            },
            Expression::FunctionCall(name, arguments) => Expression::FunctionCall(
                name,
                Self::reorder_all_filter_exists_expressions(arguments, input_types, limits),
            ),
            other => other,
        }
    }
}

/// The parts of an expression are smaller and not deeper than the expression.
proof fn lemma_expr_parts(expression: Expr)
    ensures
        match expression {
            Expr::Or(inner)
            | Expr::And(inner)
            | Expr::Coalesce(inner)
            | Expr::FunctionCall(_, inner) => decreases_to!(expression => inner) && exprs_depth(
                inner,
            ) == expr_depth(expression),
            Expr::Equal(left, right)
            | Expr::SameTerm(left, right)
            | Expr::Greater(left, right)
            | Expr::GreaterOrEqual(left, right)
            | Expr::Less(left, right)
            | Expr::LessOrEqual(left, right)
            | Expr::Add(left, right)
            | Expr::Subtract(left, right)
            | Expr::Multiply(left, right)
            | Expr::Divide(left, right) => decreases_to!(expression => *left)
                && decreases_to!(expression => *right) && expr_depth(*left) <= expr_depth(
                expression,
            ) && expr_depth(*right) <= expr_depth(expression),
            Expr::UnaryPlus(inner) | Expr::UnaryMinus(inner) | Expr::Not(inner) => decreases_to!(
                expression => *inner
            ) && expr_depth(*inner) <= expr_depth(expression),
            Expr::If(condition, then_case, else_case) => decreases_to!(expression => *condition)
                && decreases_to!(expression => *then_case) && decreases_to!(
                expression => *else_case
            ) && expr_depth(*condition) <= expr_depth(expression) && expr_depth(*then_case)
                <= expr_depth(expression) && expr_depth(*else_case) <= expr_depth(expression),
            Expr::Exists(inner) => decreases_to!(expression => *inner) && depth(*inner) + 1
                == expr_depth(expression),
            _ => true,
        },
{
}

} // verus!
