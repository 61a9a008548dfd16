//! Rewritings of joins with unions.

use vstd::prelude::*;

use crate::algebra::{clone_all, plans_view, Expr, GraphPattern, JoinAlgorithm, Plan};
use crate::builders::{filter, is_empty_singleton, join, union_all};
use crate::estimate::{capped_sum, estimate_graph_pattern_size, plan_size};
use crate::factors::{join_all_factors, joined, split_singleton_union_branches, split_singletons};
use crate::greedy::{greatest, lemma_greatest, pick_greatest, rank_view, ranks_view};
use crate::limits::Limits;
use crate::lookups::{
    expression_contains_highly_correlated_filter_exists, has_highly_correlated,
    has_local_cartesian_inner_join, has_seeded_subclass_lookup, is_local_cartesian,
    join_key_variables, join_keys, should_avoid_singleton_union_duplication,
};
use crate::term::{names, Variable};
use crate::type_inference::{infer, infer_graph_pattern_types, type_of, Types, VariableTypes};

verus! {

/// A branch that only filters its surroundings, by an EXISTS that depends on
/// them.
pub open spec fn is_correlated_branch(branch: Plan, types: Types, limits: Limits) -> bool {
    match branch {
        Plan::Filter { inner, expression } => is_empty_singleton(*inner) && has_highly_correlated(
            expression,
            types,
            limits,
        ),
        _ => false,
    }
}

pub open spec fn condition_of(branch: Plan) -> Expr {
    match branch {
        Plan::Filter { expression, .. } => expression,
        _ => arbitrary(),
    }
}

pub open spec fn correlated_branches(branches: Seq<Plan>, types: Types, limits: Limits) -> Seq<
    Plan,
> {
    branches.filter(|branch: Plan| is_correlated_branch(branch, types, limits))
}

pub open spec fn other_branches(branches: Seq<Plan>, types: Types, limits: Limits) -> Seq<Plan> {
    branches.filter(|branch: Plan| !is_correlated_branch(branch, types, limits))
}

/// A plan under the condition of each branch.
pub open spec fn filtered_by_each(shared: Plan, branches: Seq<Plan>) -> Seq<Plan> {
    branches.map_values(|branch: Plan| filter(shared, condition_of(branch)))
}

/// An inner join whose keys are the variables that both sides bind.
pub open spec fn keyed_join(left: Plan, right: Plan, types: Types) -> Plan {
    join(left, right, join_keys(infer(left, types), infer(right, types), types))
}

/// A join with a union that has branches which only filter the other side: the
/// other side is filtered instead.
pub open spec fn filter_instead_of_join(
    shared: Plan,
    union: Plan,
    types: Types,
    limits: Limits,
) -> Option<Plan> {
    match union {
        Plan::Union { inner } => {
            let shared_types = infer(shared, types);
            let correlated = correlated_branches(inner, shared_types, limits);
            let others = other_branches(inner, shared_types, limits);
            let filtered = filtered_by_each(shared, correlated);
            if correlated.len() == 0 {
                None
            } else if others.len() == 0 {
                Some(union_all(filtered))
            } else {
                Some(union_all(filtered.push(keyed_join(shared, union_all(others), types))))
            }
        },
        _ => None,
    }
}

pub open spec fn filter_instead_of_either(
    left: Plan,
    right: Plan,
    types: Types,
    limits: Limits,
) -> Option<Plan> {
    match filter_instead_of_join(left, right, types, limits) {
        Some(plan) => Some(plan),
        None => filter_instead_of_join(right, left, types, limits),
    }
}

/// A factor that may be copied into the branches of a union.
pub open spec fn is_small_factor(plan: Plan, types: Types, limits: Limits) -> bool {
    (plan is QuadPattern || plan is Path) && plan_size(plan, types, limits)
        <= limits.join_union_distribution_max_factor_cost
}

/// A union into whose branches a factor may be copied: a few branches, one of
/// them a join without keys.
pub open spec fn takes_factor(union: Plan, types: Types, limits: Limits) -> bool {
    match union {
        Plan::Union { inner } => 2 <= inner.len() <= limits.join_union_distribution_max_branches
            && has_cartesian(inner, types),
        _ => false,
    }
}

pub open spec fn has_cartesian(branches: Seq<Plan>, types: Types) -> bool {
    exists|i: int| 0 <= i < branches.len() && is_local_cartesian(#[trigger] branches[i], types)
}

pub open spec fn union_branches(union: Plan) -> Seq<Plan> {
    match union {
        Plan::Union { inner } => inner,
        _ => seq![],
    }
}

pub open spec fn key_count(factor: Plan, branch: Plan, types: Types) -> nat {
    join_keys(infer(factor, types), infer(branch, types), types).len()
}

/// Whether a factor shares a variable with every branch.
pub open spec fn keyed_with_all(factor: Plan, branches: Seq<Plan>, types: Types) -> bool {
    forall|i: int|
        0 <= i < branches.len() ==> key_count(factor, #[trigger] branches[i], types) > 0
}

/// A factor joined with every branch.
pub open spec fn joined_with_each(factor: Plan, branches: Seq<Plan>, types: Types) -> Seq<Plan> {
    branches.map_values(|branch: Plan| keyed_join(factor, branch, types))
}

/// A join of a small factor and a union, with the factor copied into the branches.
pub open spec fn distribute(factor: Plan, union: Plan, types: Types, limits: Limits) -> Option<
    Plan,
> {
    if is_small_factor(factor, types, limits) && takes_factor(union, types, limits)
        && keyed_with_all(factor, union_branches(union), types) {
        Some(union_all(joined_with_each(factor, union_branches(union), types)))
    } else {
        None
    }
}

pub open spec fn distribute_either(
    left: Plan,
    right: Plan,
    types: Types,
    limits: Limits,
) -> Option<Plan> {
    if left is Union {
        distribute(right, left, types, limits)
    } else if right is Union {
        distribute(left, right, types, limits)
    } else {
        None
    }
}

/// A union with exactly one branch that is one row without values.
pub open spec fn has_one_singleton(plan: Plan) -> bool {
    match split_singletons(plan) {
        Some((count, _)) => count == 1,
        None => false,
    }
}

pub open spec fn singleton_others(plan: Plan) -> Seq<Plan> {
    match split_singletons(plan) {
        Some((_, others)) => others,
        None => seq![],
    }
}

/// A join with a union that has one row without values as a branch: the other
/// side by itself, and its join with the other branches. Not where the other
/// side, as given or reordered, is better not evaluated twice.
pub open spec fn split_off_singleton(
    left: Plan,
    right: Plan,
    reordered_left: Plan,
    reordered_right: Plan,
    types: Types,
    limits: Limits,
) -> Option<Plan> {
    if has_one_singleton(right) {
        let others = singleton_others(right);
        if has_seeded_subclass_lookup(left, types, limits) || has_seeded_subclass_lookup(
            reordered_left,
            types,
            limits,
        ) {
            None
        } else if others.len() == 0 {
            Some(left)
        } else {
            Some(union_all(seq![left, keyed_join(left, union_all(others), types)]))
        }
    } else if has_one_singleton(left) {
        let others = singleton_others(left);
        if has_seeded_subclass_lookup(right, types, limits) || has_seeded_subclass_lookup(
            reordered_right,
            types,
            limits,
        ) {
            None
        } else if others.len() == 0 {
            Some(right)
        } else {
            Some(union_all(seq![right, keyed_join(union_all(others), right, types)]))
        }
    } else {
        None
    }
}

/// The join of a union that has one row without values as a branch with a side
/// that is better not evaluated twice.
pub open spec fn guarded_join(
    left: Plan,
    right: Plan,
    types: Types,
    limits: Limits,
) -> Option<Plan> {
    if has_one_singleton(right) && has_seeded_subclass_lookup(left, types, limits)
        || has_one_singleton(left) && has_seeded_subclass_lookup(right, types, limits) {
        Some(keyed_join(left, right, types))
    } else {
        None
    }
}

/// The first plan for which a condition holds.
pub open spec fn first_where(plans: Seq<Plan>, condition: spec_fn(Plan) -> bool) -> Option<int>
    decreases plans.len(),
{
    if plans.len() == 0 {
        None
    } else {
        match first_where(plans.drop_last(), condition) {
            Some(i) => Some(i),
            None => if condition(plans.last()) {
                Some(plans.len() - 1)
            } else {
                None
            },
        }
    }
}

/// The first plan for which a condition holds is in range and satisfies it.
pub proof fn lemma_first_where(plans: Seq<Plan>, condition: spec_fn(Plan) -> bool)
    ensures
        match first_where(plans, condition) {
            Some(i) => 0 <= i < plans.len() && condition(plans[i]) && forall|j: int|
                0 <= j < i ==> !condition(#[trigger] plans[j]),
            None => forall|j: int| 0 <= j < plans.len() ==> !condition(#[trigger] plans[j]),
        },
    decreases plans.len(),
{
    if plans.len() > 0 {
        lemma_first_where(plans.drop_last(), condition);
        assert forall|j: int| 0 <= j < plans.len() - 1 implies #[trigger] plans[j]
            == plans.drop_last()[j] by {}
    }
}

/// The first union among the factors into whose branches a factor may be copied.
pub open spec fn first_taking_union(factors: Seq<Plan>, types: Types, limits: Limits) -> Option<
    int,
> {
    first_where(factors, |factor: Plan| takes_factor(factor, types, limits))
}

/// The first union among the factors that has exactly one row without values.
pub open spec fn first_singleton_union(factors: Seq<Plan>) -> Option<int> {
    first_where(factors, |factor: Plan| has_one_singleton(factor))
}

/// The number of variables that a factor shares with the branches, all together.
pub open spec fn total_keys(factor: Plan, branches: Seq<Plan>, types: Types) -> nat
    decreases branches.len(),
{
    if branches.len() == 0 {
        0
    } else {
        capped_sum(
            total_keys(factor, branches.drop_last(), types),
            key_count(factor, branches.last(), types),
        )
    }
}

/// How well each factor suits to be copied into the branches of the union.
pub open spec fn distribution_ranks(
    factors: Seq<Plan>,
    union_index: int,
    types: Types,
    limits: Limits,
) -> Seq<Option<(nat, bool, nat)>> {
    let all = union_branches(factors[union_index]);
    Seq::new(
        factors.len(),
        |i: int|
            if i != union_index && is_small_factor(factors[i], types, limits) && keyed_with_all(
                factors[i],
                all,
                types,
            ) {
                Some(
                    (
                        total_keys(factors[i], all, types),
                        true,
                        plan_size(factors[i], types, limits),
                    ),
                )
            } else {
                None
            },
    )
}

/// The factors other than two of them.
pub open spec fn without_two(factors: Seq<Plan>, first: int, second: int) -> Seq<Plan> {
    if first < second {
        factors.remove(second).remove(first)
    } else {
        factors.remove(first).remove(second)
    }
}

/// The factors of a join where the best small factor is copied into the
/// branches of the first union that takes one.
pub open spec fn distribute_flat(factors: Seq<Plan>, types: Types, limits: Limits) -> Option<
    Plan,
> {
    if factors.len() < 3 {
        None
    } else {
        match first_taking_union(factors, types, limits) {
            Some(u) => match greatest(distribution_ranks(factors, u, types, limits)) {
                Some(f) => Some(
                    joined(
                        without_two(factors, u, f).push(
                            union_all(
                                joined_with_each(factors[f], union_branches(factors[u]), types),
                            ),
                        ),
                    ),
                ),
                None => None,
            },
            None => None,
        }
    }
}

/// The plans whose flag has a given value.
pub open spec fn flagged(plans: Seq<Plan>, flags: Seq<bool>, value: bool) -> Seq<Plan>
    decreases plans.len(),
{
    if plans.len() == 0 {
        seq![]
    } else {
        let before = flagged(plans.drop_last(), flags, value);
        if flags[plans.len() - 1] == value {
            before.push(plans.last())
        } else {
            before
        }
    }
}

/// The keys that a plan always binds.
pub open spec fn covered_keys(
    keys: Seq<Seq<char>>,
    plan: Plan,
    types: Types,
) -> Seq<Seq<char>> {
    keys.filter(|key: Seq<char>| !type_of(infer(plan, types), key).undef)
}

/// The keys that a plan may leave without a value.
pub open spec fn uncovered_keys(
    keys: Seq<Seq<char>>,
    plan: Plan,
    types: Types,
) -> Seq<Seq<char>> {
    keys.filter(|key: Seq<char>| type_of(infer(plan, types), key).undef)
}

/// How well each factor suits to bind the remaining keys: by their number,
/// rather one that may be evaluated twice, rather a small one.
pub open spec fn cover_ranks(
    factors: Seq<Plan>,
    keys: Seq<Seq<char>>,
    chosen: Seq<bool>,
    types: Types,
    limits: Limits,
) -> Seq<Option<(nat, bool, nat)>> {
    Seq::new(
        factors.len(),
        |i: int|
            {
                let covered = covered_keys(keys, factors[i], types).len();
                if !chosen[i] && covered > 0 {
                    Some(
                        (
                            covered,
                            !has_seeded_subclass_lookup(factors[i], types, limits),
                            plan_size(factors[i], types, limits),
                        ),
                    )
                } else {
                    None
                }
            },
    )
}

/// The factors that together bind all the keys, chosen one after the other.
pub open spec fn cover(
    factors: Seq<Plan>,
    keys: Seq<Seq<char>>,
    chosen: Seq<bool>,
    types: Types,
    limits: Limits,
    steps: nat,
) -> Option<Seq<bool>>
    decreases steps,
{
    if keys.len() == 0 {
        Some(chosen)
    } else if steps == 0 {
        None
    } else {
        match greatest(cover_ranks(factors, keys, chosen, types, limits)) {
            Some(i) => cover(
                factors,
                uncovered_keys(keys, factors[i], types),
                chosen.update(i, true),
                types,
                limits,
                (steps - 1) as nat,
            ),
            None => None,
        }
    }
}

pub open spec fn none_chosen(count: nat) -> Seq<bool> {
    Seq::new(count, |i: int| false)
}

/// Whether a chosen factor may be evaluated twice.
pub open spec fn chooses_unguarded(
    factors: Seq<Plan>,
    chosen: Seq<bool>,
    types: Types,
    limits: Limits,
) -> bool {
    exists|i: int|
        0 <= i < factors.len() && chosen[i] && !has_seeded_subclass_lookup(
            #[trigger] factors[i],
            types,
            limits,
        )
}

/// Some factors, joined with a union of one row without values and a plan,
/// where only the factors that share a variable with the plan are evaluated
/// twice.
pub open spec fn split_with_chosen(factors: Seq<Plan>, chosen: Seq<bool>, right: Plan) -> Plan {
    let twice = flagged(factors, chosen, true);
    let once = flagged(factors, chosen, false);
    let both = union_all(seq![joined(twice), joined(twice.push(right))]);
    if once.len() == 0 {
        both
    } else {
        joined(once.push(both))
    }
}

/// Some factors joined with a union of one row without values and other
/// branches, if the variables that they share can be bound by factors of which
/// one may be evaluated twice.
pub open spec fn split_guarded(
    factors: Seq<Plan>,
    others: Seq<Plan>,
    types: Types,
    limits: Limits,
) -> Option<Plan> {
    let right = union_all(others);
    let keys = join_keys(infer(joined(factors), types), infer(right, types), types);
    if factors.len() == 0 || keys.len() == 0 {
        None
    } else {
        match cover(factors, keys, none_chosen(factors.len()), types, limits, factors.len()) {
            Some(chosen) => if chooses_unguarded(factors, chosen, types, limits) {
                Some(split_with_chosen(factors, chosen, right))
            } else {
                None
            },
            None => None,
        }
    }
}

/// An inner join whose keys are the variables that both sides bind.
pub fn join_on_common_variables(
    left: GraphPattern,
    right: GraphPattern,
    input_types: &VariableTypes,
) -> (r: GraphPattern)
    ensures
        r@ == keyed_join(left@, right@, input_types@),
{
    let left_types = infer_graph_pattern_types(&left, input_types.clone());
    let right_types = infer_graph_pattern_types(&right, input_types.clone());
    let keys = join_key_variables(&left_types, &right_types, input_types);
    GraphPattern::join(left, right, JoinAlgorithm::HashBuildLeftProbeRight { keys })
}

/// A join with a union that has branches which only filter the other side: the
/// other side is filtered instead.
pub fn rewrite_correlated_filter_only_union_join(
    shared: GraphPattern,
    union: GraphPattern,
    input_types: &VariableTypes,
    limits: &Limits,
) -> (r: Option<GraphPattern>)
    ensures
        filter_instead_of_join(shared@, union@, input_types@, *limits) == match r {
            Some(pattern) => Some(pattern@),
            None => None,
        },
{
    let ghost whole = union@;
    match union {
        GraphPattern::Union { inner } => {
            let shared_types = infer_graph_pattern_types(&shared, input_types.clone());
            let ghost given = plans_view(inner@);
            let ghost types = shared_types@;
            let mut rewritten_branches: Vec<GraphPattern> = Vec::new();
            let mut other: Vec<GraphPattern> = Vec::new();
            proof {
                reveal(Seq::filter);
                assert(plans_view(rewritten_branches@) =~= filtered_by_each(
                    shared@,
                    correlated_branches(given.take(0), types, *limits),
                ));
                assert(plans_view(other@) =~= other_branches(given.take(0), types, *limits));
            }
            for branch in it: inner
                invariant
                    it.seq() == inner@,
                    given == plans_view(inner@),
                    types == shared_types@,
                    plans_view(rewritten_branches@) == filtered_by_each(
                        shared@,
                        correlated_branches(given.take(it.index() as int), types, *limits),
                    ),
                    plans_view(other@) == other_branches(
                        given.take(it.index() as int),
                        types,
                        *limits,
                    ),
            {
                let ghost n = it.index() as int;
                let ghost (before, before_other, plan) = (rewritten_branches@, other@, branch@);
                let ghost chosen = correlated_branches(given.take(n), types, *limits);
                proof {
                    reveal(Seq::filter);
                    assert(given[n] == branch@);
                    assert(given.take(n + 1).drop_last() =~= given.take(n));
                }
                match branch {
                    GraphPattern::Filter { inner: filtered, expression } => {
                        if filtered.is_empty_singleton()
                            && expression_contains_highly_correlated_filter_exists(
                            &expression,
                            &shared_types,
                            limits,
                        ) {
                            rewritten_branches.push(
                                GraphPattern::filter(shared.clone(), expression),
                            );
                            assert(filtered_by_each(shared@, chosen.push(plan))
                                =~= filtered_by_each(shared@, chosen).push(
                                filter(shared@, condition_of(plan)),
                            ));
                            assert(plans_view(rewritten_branches@) =~= plans_view(before).push(
                                filter(shared@, condition_of(plan)),
                            ));
                        } else {
                            other.push(GraphPattern::Filter { inner: filtered, expression });
                            assert(plans_view(other@) =~= plans_view(before_other).push(plan));
                        }
                    },
                    kept => {
                        other.push(kept);
                        assert(plans_view(other@) =~= plans_view(before_other).push(plan));
                    },
                }
            }
            assert(given.take(given.len() as int) =~= given);
            assert(plans_view(rewritten_branches@).len() == rewritten_branches@.len());
            assert(plans_view(other@).len() == other@.len());
            if rewritten_branches.len() == 0 {
                return None;
            }
            if other.len() > 0 {
                let ghost before = rewritten_branches@;
                let joined = join_on_common_variables(
                    shared,
                    GraphPattern::union_all(other),
                    input_types,
                );
                let ghost plan = joined@;
                rewritten_branches.push(joined);
                assert(plans_view(rewritten_branches@) =~= plans_view(before).push(plan));
            }
            Some(GraphPattern::union_all(rewritten_branches))
        },
        _ => None,
    }
}

/// The same, whichever side is the union.
pub fn rewrite_inner_join_with_correlated_filter_only_union_branch(
    left: GraphPattern,
    right: GraphPattern,
    input_types: &VariableTypes,
    limits: &Limits,
) -> (r: Option<GraphPattern>)
    ensures
        filter_instead_of_either(left@, right@, input_types@, *limits) == match r {
            Some(pattern) => Some(pattern@),
            None => None,
        },
{
    match rewrite_correlated_filter_only_union_join(
        left.clone(),
        right.clone(),
        input_types,
        limits,
    ) {
        Some(pattern) => Some(pattern),
        None => rewrite_correlated_filter_only_union_join(right, left, input_types, limits),
    }
}

/// Whether a factor may be copied into the branches of a union.
pub fn is_small_factor_for_union_distribution(
    pattern: &GraphPattern,
    input_types: &VariableTypes,
    limits: &Limits,
) -> (r: bool)
    ensures
        r == is_small_factor(pattern@, input_types@, *limits),
{
    matches!(pattern, GraphPattern::QuadPattern { .. } | GraphPattern::Path { .. })
        && estimate_graph_pattern_size(pattern, input_types, limits)
        <= limits.join_union_distribution_max_factor_cost
}

fn takes_small_factor(pattern: &GraphPattern, input_types: &VariableTypes, limits: &Limits) -> (r:
    bool)
    ensures
        r == takes_factor(pattern@, input_types@, *limits),
{
    match pattern {
        GraphPattern::Union { inner } => {
            let ghost given = plans_view(inner@);
            assert(given.len() == inner@.len());
            if inner.len() < 2 || inner.len() > limits.join_union_distribution_max_branches {
                return false;
            }
            for i in 0..inner.len()
                invariant
                    given == plans_view(inner@),
                    pattern@ == (Plan::Union { inner: given }),
                    2 <= given.len() <= limits.join_union_distribution_max_branches,
                    forall|j: int|
                        0 <= j < i ==> !is_local_cartesian(#[trigger] given[j], input_types@),
            {
                assert(given[i as int] == inner@[i as int]@);
                if has_local_cartesian_inner_join(&inner[i], input_types) {
                    assert(is_local_cartesian(given[i as int], input_types@));
                    return true;
                }
            }
            false
        },
        _ => false,
    }
}

/// The number of variables that a factor shares with the branches, all
/// together, if it shares one with each of them.
fn count_keys(factor: &GraphPattern, branches: &Vec<GraphPattern>, input_types: &VariableTypes) -> (r:
    Option<usize>)
    ensures
        r is Some == keyed_with_all(factor@, plans_view(branches@), input_types@),
        r matches Some(total) ==> total == total_keys(
            factor@,
            plans_view(branches@),
            input_types@,
        ),
{
    let ghost given = plans_view(branches@);
    let factor_types = infer_graph_pattern_types(factor, input_types.clone());
    let mut total: usize = 0;
    for i in 0..branches.len()
        invariant
            given == plans_view(branches@),
            factor_types@ == infer(factor@, input_types@),
            total == total_keys(factor@, given.take(i as int), input_types@),
            forall|j: int|
                0 <= j < i ==> key_count(factor@, #[trigger] given[j], input_types@) > 0,
    {
        proof {
            assert(given[i as int] == branches@[i as int]@);
            assert(given.take(i + 1).drop_last() =~= given.take(i as int));
        }
        let branch_types = infer_graph_pattern_types(&branches[i], input_types.clone());
        let keys = join_key_variables(&factor_types, &branch_types, input_types);
        assert(names(keys@).len() == keys@.len());
        if keys.len() == 0 {
            assert(key_count(factor@, given[i as int], input_types@) == 0);
            return None;
        }
        total = total.saturating_add(keys.len());
    }
    assert(given.take(given.len() as int) =~= given);
    Some(total)
}

fn join_with_each(
    factor: &GraphPattern,
    branches: Vec<GraphPattern>,
    input_types: &VariableTypes,
) -> (r: Vec<GraphPattern>)
    ensures
        plans_view(r@) == joined_with_each(factor@, plans_view(branches@), input_types@),
{
    let ghost given = plans_view(branches@);
    let mut result: Vec<GraphPattern> = Vec::new();
    for branch in it: branches
        invariant
            it.seq() == branches@,
            given == plans_view(branches@),
            result@.len() == it.index(),
            forall|j: int|
                0 <= j < it.index() ==> (#[trigger] result@[j])@ == keyed_join(
                    factor@,
                    given[j],
                    input_types@,
                ),
    {
        assert(given[it.index() as int] == branch@);
        result.push(join_on_common_variables(factor.clone(), branch, input_types));
    }
    assert(plans_view(result@) =~= joined_with_each(factor@, given, input_types@));
    result
}

/// A join of a small factor and a union, with the factor copied into the branches.
pub fn distribute_small_factor_over_union(
    factor: GraphPattern,
    union: GraphPattern,
    input_types: &VariableTypes,
    limits: &Limits,
) -> (r: Option<GraphPattern>)
    ensures
        distribute(factor@, union@, input_types@, *limits) == match r {
            Some(pattern) => Some(pattern@),
            None => None,
        },
{
    if !is_small_factor_for_union_distribution(&factor, input_types, limits) {
        return None;
    }
    if !takes_small_factor(&union, input_types, limits) {
        return None;
    }
    match union {
        GraphPattern::Union { inner } => {
            if count_keys(&factor, &inner, input_types).is_none() {
                return None;
            }
            Some(GraphPattern::union_all(join_with_each(&factor, inner, input_types)))
        },
        _ => None,
    }
}

/// The same, whichever side is the union.
pub fn rewrite_inner_join_with_small_factor_union(
    left: GraphPattern,
    right: GraphPattern,
    input_types: &VariableTypes,
    limits: &Limits,
) -> (r: Option<GraphPattern>)
    ensures
        distribute_either(left@, right@, input_types@, *limits) == match r {
            Some(pattern) => Some(pattern@),
            None => None,
        },
{
    let left_is_union = matches!(left, GraphPattern::Union { .. });
    let right_is_union = matches!(right, GraphPattern::Union { .. });
    if left_is_union {
        distribute_small_factor_over_union(right, left, input_types, limits)
    } else if right_is_union {
        distribute_small_factor_over_union(left, right, input_types, limits)
    } else {
        None
    }
}

/// The other branches of a union with exactly one row without values.
fn one_singleton_others(pattern: &GraphPattern) -> (r: Option<Vec<GraphPattern>>)
    ensures
        r is Some == has_one_singleton(pattern@),
        r matches Some(others) ==> plans_view(others@) == singleton_others(pattern@),
{
    match split_singleton_union_branches(pattern) {
        Some((count, others)) => {
            if count == 1 {
                Some(others)
            } else {
                None
            }
        },
        None => None,
    }
}

fn two(first: GraphPattern, second: GraphPattern) -> (r: Vec<GraphPattern>)
    ensures
        plans_view(r@) == seq![first@, second@],
{
    let mut both: Vec<GraphPattern> = Vec::new();
    both.push(first);
    both.push(second);
    assert(plans_view(both@) =~= seq![first@, second@]);
    both
}

/// A join with a union that has one row without values as a branch: the other
/// side by itself, and its join with the other branches. Not where the other
/// side, as given or reordered, is better not evaluated twice.
pub fn rewrite_inner_join_with_singleton_union_branch(
    left: GraphPattern,
    right: GraphPattern,
    reordered_left: &GraphPattern,
    reordered_right: &GraphPattern,
    input_types: &VariableTypes,
    limits: &Limits,
) -> (r: Option<GraphPattern>)
    ensures
        split_off_singleton(
            left@,
            right@,
            reordered_left@,
            reordered_right@,
            input_types@,
            *limits,
        ) == match r {
            Some(pattern) => Some(pattern@),
            None => None,
        },
{
    match one_singleton_others(&right) {
        Some(others) => {
            assert(plans_view(others@).len() == others@.len());
            if should_avoid_singleton_union_duplication(&left, input_types, limits)
                || should_avoid_singleton_union_duplication(reordered_left, input_types, limits) {
                return None;
            }
            if others.len() == 0 {
                return Some(left);
            }
            let rest = join_on_common_variables(
                left.clone(),
                GraphPattern::union_all(others),
                input_types,
            );
            return Some(GraphPattern::union_all(two(left, rest)));
        },
        None => {},
    }
    match one_singleton_others(&left) {
        Some(others) => {
            assert(plans_view(others@).len() == others@.len());
            if should_avoid_singleton_union_duplication(&right, input_types, limits)
                || should_avoid_singleton_union_duplication(reordered_right, input_types, limits) {
                return None;
            }
            if others.len() == 0 {
                return Some(right);
            }
            let rest = join_on_common_variables(
                GraphPattern::union_all(others),
                right.clone(),
                input_types,
            );
            Some(GraphPattern::union_all(two(right, rest)))
        },
        None => None,
    }
}

/// The join of a union that has one row without values as a branch with a side
/// that is better not evaluated twice.
pub fn guarded_singleton_union_inner_join_fallback(
    left: GraphPattern,
    right: GraphPattern,
    input_types: &VariableTypes,
    limits: &Limits,
) -> (r: Option<GraphPattern>)
    ensures
        guarded_join(left@, right@, input_types@, *limits) == match r {
            Some(pattern) => Some(pattern@),
            None => None,
        },
{
    if one_singleton_others(&right).is_some() && should_avoid_singleton_union_duplication(
        &left,
        input_types,
        limits,
    ) || one_singleton_others(&left).is_some() && should_avoid_singleton_union_duplication(
        &right,
        input_types,
        limits,
    ) {
        Some(join_on_common_variables(left, right, input_types))
    } else {
        None
    }
}

fn find_taking_union(factors: &Vec<GraphPattern>, input_types: &VariableTypes, limits: &Limits) -> (r:
    Option<usize>)
    ensures
        first_taking_union(plans_view(factors@), input_types@, *limits) == match r {
            Some(i) => Some(i as int),
            None => None,
        },
{
    let ghost given = plans_view(factors@);
    let ghost condition = |factor: Plan| takes_factor(factor, input_types@, *limits);
    proof {
        lemma_first_where(given, condition);
    }
    for i in 0..factors.len()
        invariant
            given == plans_view(factors@),
            condition == (|factor: Plan| takes_factor(factor, input_types@, *limits)),
            match first_where(given, condition) {
                Some(k) => 0 <= k < given.len() && condition(given[k]) && forall|j: int|
                    0 <= j < k ==> !condition(#[trigger] given[j]),
                None => forall|j: int| 0 <= j < given.len() ==> !condition(#[trigger] given[j]),
            },
            forall|j: int| 0 <= j < i ==> !condition(#[trigger] given[j]),
    {
        assert(given[i as int] == factors@[i as int]@);
        if takes_small_factor(&factors[i], input_types, limits) {
            assert(condition(given[i as int]));
            return Some(i);
        }
    }
    None
}

/// The first union among the factors that has exactly one row without values,
/// and its other branches.
pub fn find_singleton_union(factors: &Vec<GraphPattern>) -> (r: Option<
    (usize, Vec<GraphPattern>),
>)
    ensures
        first_singleton_union(plans_view(factors@)) == match r {
            Some((i, _)) => Some(i as int),
            None => None,
        },
        r matches Some((i, others)) ==> i < factors@.len() && plans_view(others@)
            == singleton_others(plans_view(factors@)[i as int]),
{
    let ghost given = plans_view(factors@);
    let ghost condition = |factor: Plan| has_one_singleton(factor);
    proof {
        lemma_first_where(given, condition);
    }
    for i in 0..factors.len()
        invariant
            given == plans_view(factors@),
            condition == (|factor: Plan| has_one_singleton(factor)),
            match first_where(given, condition) {
                Some(k) => 0 <= k < given.len() && condition(given[k]) && forall|j: int|
                    0 <= j < k ==> !condition(#[trigger] given[j]),
                None => forall|j: int| 0 <= j < given.len() ==> !condition(#[trigger] given[j]),
            },
            forall|j: int| 0 <= j < i ==> !condition(#[trigger] given[j]),
    {
        assert(given[i as int] == factors@[i as int]@);
        match one_singleton_others(&factors[i]) {
            Some(others) => {
                assert(condition(given[i as int]));
                return Some((i, others));
            },
            None => {},
        }
    }
    None
}

/// The factors of a join where the best small factor is copied into the
/// branches of the first union that takes one.
pub fn rewrite_flat_join_with_small_factor_union(
    factors: Vec<GraphPattern>,
    input_types: &VariableTypes,
    limits: &Limits,
) -> (r: Option<GraphPattern>)
    ensures
        distribute_flat(plans_view(factors@), input_types@, *limits) == match r {
            Some(pattern) => Some(pattern@),
            None => None,
        },
{
    let ghost given = plans_view(factors@);
    assert(given.len() == factors@.len());
    if factors.len() < 3 {
        return None;
    }
    let union_index = match find_taking_union(&factors, input_types, limits) {
        Some(index) => index,
        None => return None,
    };
    proof {
        lemma_first_where(given, |factor: Plan| takes_factor(factor, input_types@, *limits));
        assert(given[union_index as int] == factors@[union_index as int]@);
    }
    let branches = match &factors[union_index] {
        GraphPattern::Union { inner } => clone_all(inner),
        _ => return None,
    };
    let ghost all = union_branches(given[union_index as int]);
    assert(plans_view(branches@) == all);
    let mut ranks: Vec<Option<(usize, bool, usize)>> = Vec::new();
    let ghost wanted = distribution_ranks(given, union_index as int, input_types@, *limits);
    for i in 0..factors.len()
        invariant
            given == plans_view(factors@),
            plans_view(branches@) == all,
            all == union_branches(given[union_index as int]),
            wanted == distribution_ranks(given, union_index as int, input_types@, *limits),
            ranks@.len() == i,
            forall|j: int| 0 <= j < i ==> rank_view(#[trigger] ranks@[j]) == wanted[j],
    {
        assert(given[i as int] == factors@[i as int]@);
        let rank = if i == union_index || !is_small_factor_for_union_distribution(
            &factors[i],
            input_types,
            limits,
        ) {
            None
        } else {
            match count_keys(&factors[i], &branches, input_types) {
                Some(total) => Some(
                    (total, true, estimate_graph_pattern_size(&factors[i], input_types, limits)),
                ),
                None => None,
            }
        };
        ranks.push(rank);
    }
    assert(ranks_view(ranks@) =~= wanted);
    proof {
        lemma_greatest(wanted);
    }
    let factor_index = match pick_greatest(&ranks) {
        Some(index) => index,
        None => return None,
    };
    assert(factor_index != union_index);
    let mut rest = factors;
    assert(given[factor_index as int] == rest@[factor_index as int]@);
    let factor = rest[factor_index].clone();
    if union_index < factor_index {
        rest.remove(factor_index);
        rest.remove(union_index);
    } else {
        rest.remove(union_index);
        rest.remove(factor_index);
    }
    assert(plans_view(rest@) =~= without_two(given, union_index as int, factor_index as int));
    let ghost before = rest@;
    let distributed = GraphPattern::union_all(join_with_each(&factor, branches, input_types));
    let ghost plan = distributed@;
    rest.push(distributed);
    assert(plans_view(rest@) =~= plans_view(before).push(plan));
    join_all_factors(rest)
}

fn count_covered(keys: &Vec<Variable>, types: &VariableTypes) -> (r: usize)
    ensures
        r == names(keys@).filter(|key: Seq<char>| !type_of(types@, key).undef).len(),
{
    let ghost given = names(keys@);
    let ghost keep = |key: Seq<char>| !type_of(types@, key).undef;
    let mut count: usize = 0;
    assert(given.take(0).filter(keep).len() == 0) by {
        reveal(Seq::filter);
    }
    for i in 0..keys.len()
        invariant
            given == names(keys@),
            keep == (|key: Seq<char>| !type_of(types@, key).undef),
            count == given.take(i as int).filter(keep).len(),
            count <= i,
    {
        proof {
            reveal(Seq::filter);
            assert(given[i as int] == keys@[i as int]@);
            assert(given.take(i + 1).drop_last() =~= given.take(i as int));
        }
        if !types.get(&keys[i]).undef {
            count = count + 1;
        }
    }
    assert(given.take(given.len() as int) =~= given);
    count
}

fn keep_uncovered(keys: Vec<Variable>, types: &VariableTypes) -> (r: Vec<Variable>)
    ensures
        names(r@) == names(keys@).filter(|key: Seq<char>| type_of(types@, key).undef),
{
    let ghost given = names(keys@);
    let ghost keep = |key: Seq<char>| type_of(types@, key).undef;
    let mut kept: Vec<Variable> = Vec::new();
    assert(names(kept@) =~= given.take(0).filter(keep)) by {
        reveal(Seq::filter);
    }
    for key in it: keys
        invariant
            it.seq() == keys@,
            given == names(keys@),
            keep == (|key: Seq<char>| type_of(types@, key).undef),
            names(kept@) == given.take(it.index() as int).filter(keep),
    {
        let ghost n = it.index() as int;
        let ghost (before, name) = (kept@, key@);
        proof {
            reveal(Seq::filter);
            assert(given[n] == key@);
            assert(given.take(n + 1).drop_last() =~= given.take(n));
        }
        if types.get(&key).undef {
            kept.push(key);
            assert(names(kept@) =~= names(before).push(name));
        }
    }
    assert(given.take(given.len() as int) =~= given);
    kept
}

/// The factors that together bind all the keys, chosen one after the other.
fn choose_cover(
    factors: &Vec<GraphPattern>,
    keys: Vec<Variable>,
    input_types: &VariableTypes,
    limits: &Limits,
) -> (r: Option<Vec<bool>>)
    ensures
        cover(
            plans_view(factors@),
            names(keys@),
            none_chosen(factors@.len()),
            input_types@,
            *limits,
            factors@.len(),
        ) == match r {
            Some(chosen) => Some(chosen@),
            None => None,
        },
        r matches Some(chosen) ==> chosen@.len() == factors@.len(),
{
    let ghost given = plans_view(factors@);
    let ghost types = input_types@;
    let ghost goal = cover(
        given,
        names(keys@),
        none_chosen(factors@.len()),
        types,
        *limits,
        factors@.len(),
    );
    let count: usize = factors.len();
    let mut remaining = keys;
    let mut chosen: Vec<bool> = Vec::new();
    for i in 0..count
        invariant
            chosen@.len() == i,
            forall|j: int| 0 <= j < i ==> !(#[trigger] chosen@[j]),
    {
        chosen.push(false);
    }
    assert(chosen@ =~= none_chosen(factors@.len()));
    for step in 0..count
        invariant
            given == plans_view(factors@),
            types == input_types@,
            count == given.len(),
            count == factors@.len(),
            chosen@.len() == count,
            goal == cover(
                given,
                names(keys@),
                none_chosen(factors@.len()),
                types,
                *limits,
                factors@.len(),
            ),
            goal == cover(
                given,
                names(remaining@),
                chosen@,
                types,
                *limits,
                (count - step) as nat,
            ),
    {
        assert(names(remaining@).len() == remaining@.len());
        if remaining.len() == 0 {
            return Some(chosen);
        }
        let mut ranks: Vec<Option<(usize, bool, usize)>> = Vec::new();
        let ghost wanted = cover_ranks(given, names(remaining@), chosen@, types, *limits);
        for i in 0..count
            invariant
                given == plans_view(factors@),
                types == input_types@,
                count == given.len(),
                count == factors@.len(),
                chosen@.len() == count,
                wanted == cover_ranks(given, names(remaining@), chosen@, types, *limits),
                ranks@.len() == i,
                forall|j: int| 0 <= j < i ==> rank_view(#[trigger] ranks@[j]) == wanted[j],
        {
            assert(given[i as int] == factors@[i as int]@);
            let factor_types = infer_graph_pattern_types(&factors[i], input_types.clone());
            let covered = count_covered(&remaining, &factor_types);
            assert(covered == covered_keys(names(remaining@), given[i as int], types).len());
            let rank = if !chosen[i] && covered > 0 {
                Some(
                    (
                        covered,
                        !should_avoid_singleton_union_duplication(&factors[i], input_types, limits),
                        estimate_graph_pattern_size(&factors[i], input_types, limits),
                    ),
                )
            } else {
                None
            };
            ranks.push(rank);
        }
        assert(ranks_view(ranks@) =~= wanted);
        match pick_greatest(&ranks) {
            Some(next) => {
                assert(given[next as int] == factors@[next as int]@);
                let factor_types = infer_graph_pattern_types(&factors[next], input_types.clone());
                chosen.set(next, true);
                remaining = keep_uncovered(remaining, &factor_types);
            },
            None => {
                return None;
            },
        }
    }
    assert(names(remaining@).len() == remaining@.len());
    if remaining.len() == 0 {
        Some(chosen)
    } else {
        None
    }
}

fn any_chosen_unguarded(
    factors: &Vec<GraphPattern>,
    chosen: &Vec<bool>,
    input_types: &VariableTypes,
    limits: &Limits,
) -> (r: bool)
    requires
        chosen@.len() == factors@.len(),
    ensures
        r == chooses_unguarded(plans_view(factors@), chosen@, input_types@, *limits),
{
    let ghost given = plans_view(factors@);
    for i in 0..factors.len()
        invariant
            given == plans_view(factors@),
            chosen@.len() == factors@.len(),
            forall|j: int|
                0 <= j < i ==> !(chosen@[j] && !has_seeded_subclass_lookup(
                    #[trigger] given[j],
                    input_types@,
                    *limits,
                )),
    {
        assert(given[i as int] == factors@[i as int]@);
        if chosen[i] && !should_avoid_singleton_union_duplication(
            &factors[i],
            input_types,
            limits,
        ) {
            return true;
        }
    }
    false
}

/// The patterns whose flag is set, and the others.
fn split_by_flags(factors: Vec<GraphPattern>, flags: &Vec<bool>) -> (r: (
    Vec<GraphPattern>,
    Vec<GraphPattern>,
))
    requires
        flags@.len() == factors@.len(),
    ensures
        plans_view(r.0@) == flagged(plans_view(factors@), flags@, true),
        plans_view(r.1@) == flagged(plans_view(factors@), flags@, false),
{
    let ghost given = plans_view(factors@);
    let mut set: Vec<GraphPattern> = Vec::new();
    let mut unset: Vec<GraphPattern> = Vec::new();
    assert(plans_view(set@) =~= seq![]);
    assert(plans_view(unset@) =~= seq![]);
    let count: usize = flags.len();
    let mut position: usize = 0;
    for factor in it: factors
        invariant
            it.seq() == factors@,
            given == plans_view(factors@),
            flags@.len() == factors@.len(),
            flags@.len() == count,
            position == it.index(),
            plans_view(set@) == flagged(given.take(it.index() as int), flags@, true),
            plans_view(unset@) == flagged(given.take(it.index() as int), flags@, false),
    {
        let ghost n = it.index() as int;
        let ghost (before_set, before_unset, plan) = (set@, unset@, factor@);
        proof {
            assert(given[n] == factor@);
            assert(given.take(n + 1).drop_last() =~= given.take(n));
        }
        if flags[position] {
            set.push(factor);
            assert(plans_view(set@) =~= plans_view(before_set).push(plan));
        } else {
            unset.push(factor);
            assert(plans_view(unset@) =~= plans_view(before_unset).push(plan));
        }
        position = position + 1;
    }
    assert(given.take(given.len() as int) =~= given);
    (set, unset)
}

/// Some factors, joined with a union of one row without values and a pattern,
/// where only the chosen factors are evaluated twice.
fn split_on_chosen(factors: Vec<GraphPattern>, chosen: Vec<bool>, right: GraphPattern) -> (r:
    Option<GraphPattern>)
    requires
        chosen@.len() == factors@.len(),
        exists|i: int| 0 <= i < chosen@.len() && #[trigger] chosen@[i],
    ensures
        r matches Some(pattern) && pattern@ == split_with_chosen(
            plans_view(factors@),
            chosen@,
            right@,
        ),
{
    let ghost given = plans_view(factors@);
    let ghost right_plan = right@;
    proof {
        let i = choose|i: int| 0 <= i < chosen@.len() && #[trigger] chosen@[i];
        lemma_flagged_has(given, chosen@, true, i);
    }
    let (twice, once) = split_by_flags(factors, &chosen);
    assert(plans_view(twice@).len() == twice@.len());
    assert(plans_view(once@).len() == once@.len());
    let duplicated_join = match join_all_factors(clone_all(&twice)) {
        Some(pattern) => pattern,
        None => return None,
    };
    let mut branch_factors = twice;
    let ghost before = branch_factors@;
    branch_factors.push(right);
    assert(plans_view(branch_factors@) =~= plans_view(before).push(right_plan));
    let branch_join = match join_all_factors(branch_factors) {
        Some(pattern) => pattern,
        None => return None,
    };
    let both = GraphPattern::union_all(two(duplicated_join, branch_join));
    if once.len() == 0 {
        Some(both)
    } else {
        let mut outer_factors = once;
        let ghost before = outer_factors@;
        let ghost both_plan = both@;
        outer_factors.push(both);
        assert(plans_view(outer_factors@) =~= plans_view(before).push(both_plan));
        join_all_factors(outer_factors)
    }
}

/// Some factors joined with a union of one row without values and other
/// branches, if the variables that they share can be bound by factors of which
/// one may be evaluated twice.
pub fn rewrite_flat_join_with_guarded_singleton_union_branch(
    base_factors: Vec<GraphPattern>,
    non_singleton_branches: Vec<GraphPattern>,
    input_types: &VariableTypes,
    limits: &Limits,
) -> (r: Option<GraphPattern>)
    ensures
        split_guarded(
            plans_view(base_factors@),
            plans_view(non_singleton_branches@),
            input_types@,
            *limits,
        ) == match r {
            Some(pattern) => Some(pattern@),
            None => None,
        },
{
    let ghost given = plans_view(base_factors@);
    let right = GraphPattern::union_all(non_singleton_branches);
    let base_join = match join_all_factors(clone_all(&base_factors)) {
        Some(pattern) => pattern,
        None => return None,
    };
    let base_types = infer_graph_pattern_types(&base_join, input_types.clone());
    let right_types = infer_graph_pattern_types(&right, input_types.clone());
    let shared_keys = join_key_variables(&base_types, &right_types, input_types);
    assert(names(shared_keys@).len() == shared_keys@.len());
    assert(given.len() == base_factors@.len());
    if shared_keys.len() == 0 {
        return None;
    }
    let chosen = match choose_cover(&base_factors, shared_keys, input_types, limits) {
        Some(chosen) => chosen,
        None => return None,
    };
    if !any_chosen_unguarded(&base_factors, &chosen, input_types, limits) {
        return None;
    }
    split_on_chosen(base_factors, chosen, right)
}

/// A plan whose flag has a value is among those whose flag has that value.
pub proof fn lemma_flagged_has(plans: Seq<Plan>, flags: Seq<bool>, value: bool, i: int)
    requires
        0 <= i < plans.len(),
        flags[i] == value,
    ensures
        flagged(plans, flags, value).len() > 0,
    decreases plans.len(),
{
    if i < plans.len() - 1 {
        lemma_flagged_has(plans.drop_last(), flags, value, i);
    }
}

} // verus!
