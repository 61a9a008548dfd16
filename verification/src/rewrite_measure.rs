//! The rewritings of joins lower the weight and do not nest EXISTS deeper.

use vstd::prelude::*;

use crate::algebra::Plan;
use crate::builders::{filter, is_empty_singleton, union_all};
use crate::depth::lemma_joined_measure;
use crate::estimate::larger;
use crate::factors::joined;
use crate::greedy::{greatest, lemma_greatest};
use crate::limits::Limits;
use crate::lookups::{has_seeded_subclass_lookup, join_keys};
use crate::measure::{
    depth, lemma_filter_measure, lemma_item_depth, lemma_join_measure, lemma_max_depth,
    lemma_pair_measure, lemma_product_grows, lemma_product_positive, lemma_product_without,
    lemma_push_measure, lemma_single_measure, lemma_union_measure, lemma_weight_positive, max_depth,
    total_weight, weight, weight_product,
};
use crate::rewrites::{
    condition_of, correlated_branches, cover, distribute_either, distribute_flat,
    distribution_ranks, filter_instead_of_either, filter_instead_of_join, filtered_by_each,
    first_taking_union, flagged, has_one_singleton, is_correlated_branch, joined_with_each,
    keyed_join, lemma_first_where, lemma_flagged_has, none_chosen, other_branches, singleton_others,
    split_guarded, split_off_singleton, split_with_chosen, takes_factor, union_branches,
    without_two,
};
use crate::type_inference::{infer, Types};

verus! {

/// Splitting a list by a condition splits its weight.
proof fn lemma_partition(plans: Seq<Plan>, keep: spec_fn(Plan) -> bool, drop: spec_fn(Plan) -> bool)
    requires
        forall|plan: Plan| #[trigger] drop(plan) == !keep(plan),
    ensures
        total_weight(plans.filter(keep)) + total_weight(plans.filter(drop)) == total_weight(plans),
        max_depth(plans.filter(keep)) <= max_depth(plans),
        plans.filter(keep).len() + plans.filter(drop).len() == plans.len(),
    decreases plans.len(),
{
    reveal(Seq::filter);
    if plans.len() > 0 {
        let shorter = plans.drop_last();
        let last = plans.last();
        lemma_partition(shorter, keep, drop);
        assert(drop(last) == !keep(last));
        lemma_push_measure(shorter.filter(keep), last);
        lemma_push_measure(shorter.filter(drop), last);
    }
}

/// Every item of a filtered list satisfies the condition and is in the list.
proof fn lemma_filtered(plans: Seq<Plan>, keep: spec_fn(Plan) -> bool)
    ensures
        forall|i: int|
            0 <= i < plans.filter(keep).len() ==> keep(#[trigger] plans.filter(keep)[i]),
    decreases plans.len(),
{
    reveal(Seq::filter);
    if plans.len() > 0 {
        let shorter = plans.drop_last();
        lemma_filtered(shorter, keep);
        let kept = shorter.filter(keep);
        assert forall|i: int| 0 <= i < plans.filter(keep).len() implies keep(
            #[trigger] plans.filter(keep)[i],
        ) by {
            if i < kept.len() {
                assert(plans.filter(keep)[i] == kept[i]);
            }
        }
    }
}

/// Plans of a known weight, and what each of them becomes.
proof fn lemma_uniform_weight(plans: Seq<Plan>, others: Seq<Plan>, each: nat, most: nat)
    requires
        plans.len() == others.len(),
        forall|i: int| 0 <= i < plans.len() ==> weight(#[trigger] plans[i]) == each,
        forall|i: int| 0 <= i < others.len() ==> weight(#[trigger] others[i]) <= most,
    ensures
        total_weight(plans) == plans.len() * each,
        total_weight(others) <= plans.len() * most,
    decreases plans.len(),
{
    if plans.len() > 0 {
        let (p, o) = (plans.drop_last(), others.drop_last());
        assert forall|i: int| 0 <= i < p.len() implies weight(#[trigger] p[i]) == each by {
            assert(p[i] == plans[i]);
        }
        assert forall|i: int| 0 <= i < o.len() implies weight(#[trigger] o[i]) <= most by {
            assert(o[i] == others[i]);
        }
        lemma_uniform_weight(p, o, each, most);
        let n = plans.len();
        assert(n * each == (n - 1) * each + each) by (nonlinear_arith)
            requires
                n >= 1,
        ;
        assert(n * most == (n - 1) * most + most) by (nonlinear_arith)
            requires
                n >= 1,
        ;
    } else {
        assert(0 * each == 0 && 0 * most == 0) by (nonlinear_arith);
    }
}

/// Filtering the other side lowers the weight of a join with a union.
pub proof fn lemma_filter_instead_measure(
    shared: Plan,
    union: Plan,
    types: Types,
    limits: Limits,
)
    ensures
        filter_instead_of_join(shared, union, types, limits) matches Some(plan) ==> depth(plan)
            <= larger(depth(shared), depth(union)) && weight(plan) < weight(shared) * weight(union),
{
    match union {
        Plan::Union { inner } => {
            let shared_types = infer(shared, types);
            let keep = |branch: Plan| is_correlated_branch(branch, shared_types, limits);
            let drop = |branch: Plan| !is_correlated_branch(branch, shared_types, limits);
            let correlated = correlated_branches(inner, shared_types, limits);
            let others = other_branches(inner, shared_types, limits);
            let filtered = filtered_by_each(shared, correlated);
            let most = larger(depth(shared), depth(union));
            lemma_partition(inner, keep, drop);
            lemma_partition(inner, drop, keep);
            lemma_filtered(inner, keep);
            lemma_max_depth(correlated, max_depth(inner));
            assert forall|i: int| 0 <= i < correlated.len() implies weight(
                #[trigger] correlated[i],
            ) == 4 by {
                assert(keep(correlated[i]));
                match correlated[i] {
                    Plan::Filter { inner: row, .. } => {
                        assert(weight(*row) == 3);
                    },
                    _ => {},
                }
            }
            assert forall|i: int| 0 <= i < filtered.len() implies weight(#[trigger] filtered[i])
                <= weight(shared) + 1 && depth(filtered[i]) <= most by {
                assert(keep(correlated[i]));
                assert(depth(correlated[i]) <= max_depth(inner));
                lemma_filter_measure(shared, condition_of(correlated[i]));
            }
            lemma_uniform_weight(correlated, filtered, 4, weight(shared) + 1);
            lemma_max_depth(filtered, most);
            lemma_weight_positive(shared);
            let m = correlated.len();
            let s = weight(shared);
            let o = total_weight(others);
            let rest = union_all(others);
            lemma_union_measure(others);
            lemma_join_measure(
                shared,
                rest,
                join_keys(infer(shared, types), infer(rest, types), types),
            );
            lemma_product_grows(s, weight(rest), s, o + 3);
            lemma_push_measure(filtered, keyed_join(shared, rest, types));
            lemma_union_measure(filtered);
            lemma_union_measure(filtered.push(keyed_join(shared, rest, types)));
            if m > 0 {
                assert(m * (s + 1) + s * (o + 3) + 3 < s * (m * 4 + o + 3)) by (nonlinear_arith)
                    requires
                        m >= 1,
                        s >= 3,
                ;
                assert(m * (s + 1) + 3 < s * (m * 4 + 3)) by (nonlinear_arith)
                    requires
                        m >= 1,
                        s >= 3,
                ;
                if others.len() == 0 {
                    assert(o == 0);
                }
            }
        },
        _ => {},
    }
}

pub proof fn lemma_filter_instead_of_either_measure(
    left: Plan,
    right: Plan,
    types: Types,
    limits: Limits,
)
    ensures
        filter_instead_of_either(left, right, types, limits) matches Some(plan) ==> depth(plan)
            <= larger(depth(left), depth(right)) && weight(plan) < weight(left) * weight(right),
{
    lemma_filter_instead_measure(left, right, types, limits);
    lemma_filter_instead_measure(right, left, types, limits);
    assert(weight(left) * weight(right) == weight(right) * weight(left)) by (nonlinear_arith);
}

/// A factor joined with each of some branches weighs at most what it weighs
/// together with all of them.
proof fn lemma_joined_with_each_measure(factor: Plan, branches: Seq<Plan>, types: Types)
    ensures
        total_weight(joined_with_each(factor, branches, types)) <= weight(factor) * total_weight(
            branches,
        ),
        max_depth(joined_with_each(factor, branches, types)) <= larger(
            depth(factor),
            max_depth(branches),
        ),
    decreases branches.len(),
{
    let all = joined_with_each(factor, branches, types);
    if branches.len() > 0 {
        let shorter = branches.drop_last();
        let last = branches.last();
        lemma_joined_with_each_measure(factor, shorter, types);
        assert(all.drop_last() =~= joined_with_each(factor, shorter, types));
        lemma_join_measure(
            factor,
            last,
            join_keys(infer(factor, types), infer(last, types), types),
        );
        let (f, a, b) = (weight(factor), total_weight(shorter), weight(last));
        assert(f * (a + b) == f * a + f * b) by (nonlinear_arith);
    } else {
        assert(all =~= seq![]);
        assert(weight(factor) * 0 == 0) by (nonlinear_arith);
    }
}

/// Copying a factor into the branches of a union lowers the weight.
proof fn lemma_distributed_measure(factor: Plan, union: Plan, types: Types)
    requires
        union is Union,
    ensures
        depth(union_all(joined_with_each(factor, union_branches(union), types))) <= larger(
            depth(factor),
            depth(union),
        ),
        weight(union_all(joined_with_each(factor, union_branches(union), types))) < weight(factor)
            * weight(union),
{
    let all = union_branches(union);
    lemma_joined_with_each_measure(factor, all, types);
    lemma_union_measure(joined_with_each(factor, all, types));
    lemma_weight_positive(factor);
    let (f, t) = (weight(factor), total_weight(all));
    assert(f * t + 3 < f * (t + 3)) by (nonlinear_arith)
        requires
            f >= 3,
    ;
}

pub proof fn lemma_distribute_either_measure(
    left: Plan,
    right: Plan,
    types: Types,
    limits: Limits,
)
    ensures
        distribute_either(left, right, types, limits) matches Some(plan) ==> depth(plan) <= larger(
            depth(left),
            depth(right),
        ) && weight(plan) < weight(left) * weight(right),
{
    if left is Union {
        lemma_distributed_measure(right, left, types);
        assert(weight(left) * weight(right) == weight(right) * weight(left)) by (nonlinear_arith);
    } else if right is Union {
        lemma_distributed_measure(left, right, types);
    }
}

/// What a union with one row without values weighs.
pub proof fn lemma_one_singleton_measure(plan: Plan)
    requires
        has_one_singleton(plan),
    ensures
        weight(plan) == total_weight(singleton_others(plan)) + 6,
        max_depth(singleton_others(plan)) <= depth(plan),
{
    let all = union_branches(plan);
    let keep = |branch: Plan| !is_empty_singleton(branch);
    let drop = |branch: Plan| is_empty_singleton(branch);
    lemma_partition(all, keep, drop);
    lemma_filtered(all, drop);
    let dropped = all.filter(drop);
    assert(singleton_others(plan) == all.filter(keep));
    assert(dropped.len() == 1);
    assert(drop(dropped[0]));
    assert(dropped =~= seq![dropped[0]]);
    lemma_single_measure(dropped[0]);
}

/// Splitting off the row without values lowers the weight.
proof fn lemma_split_measure(side: Plan, union: Plan, types: Types)
    requires
        has_one_singleton(union),
    ensures
        weight(side) < weight(side) * weight(union),
        weight(
            union_all(
                seq![side, keyed_join(side, union_all(singleton_others(union)), types)],
            ),
        ) < weight(side) * weight(union),
        weight(
            union_all(
                seq![side, keyed_join(union_all(singleton_others(union)), side, types)],
            ),
        ) < weight(side) * weight(union),
        depth(
            union_all(
                seq![side, keyed_join(side, union_all(singleton_others(union)), types)],
            ),
        ) <= larger(depth(side), depth(union)),
        depth(
            union_all(
                seq![side, keyed_join(union_all(singleton_others(union)), side, types)],
            ),
        ) <= larger(depth(side), depth(union)),
{
    lemma_one_singleton_measure(union);
    lemma_weight_positive(side);
    let others = singleton_others(union);
    let rest = union_all(others);
    lemma_union_measure(others);
    lemma_join_measure(side, rest, join_keys(infer(side, types), infer(rest, types), types));
    lemma_join_measure(rest, side, join_keys(infer(rest, types), infer(side, types), types));
    let (a, b) = (keyed_join(side, rest, types), keyed_join(rest, side, types));
    lemma_pair_measure(side, a);
    lemma_pair_measure(side, b);
    lemma_union_measure(seq![side, a]);
    lemma_union_measure(seq![side, b]);
    let (s, r, t) = (weight(side), weight(rest), total_weight(others));
    assert(s * r <= s * (t + 3) && r * s <= s * (t + 3)) by (nonlinear_arith)
        requires
            r <= t + 3,
    ;
    assert(s + s * (t + 3) + 3 < s * (t + 6)) by (nonlinear_arith)
        requires
            s >= 3,
    ;
    assert(s < s * (t + 6)) by (nonlinear_arith)
        requires
            s >= 3,
    ;
}

pub proof fn lemma_split_off_singleton_measure(
    left: Plan,
    right: Plan,
    reordered_left: Plan,
    reordered_right: Plan,
    types: Types,
    limits: Limits,
)
    ensures
        split_off_singleton(
            left,
            right,
            reordered_left,
            reordered_right,
            types,
            limits,
        ) matches Some(plan) ==> depth(plan) <= larger(depth(left), depth(right)) && weight(plan)
            < weight(left) * weight(right),
{
    if has_one_singleton(right) {
        lemma_split_measure(left, right, types);
    } else if has_one_singleton(left) {
        lemma_split_measure(right, left, types);
        assert(weight(left) * weight(right) == weight(right) * weight(left)) by (nonlinear_arith);
    }
}

pub proof fn lemma_keyed_join_measure(left: Plan, right: Plan, types: Types)
    ensures
        depth(keyed_join(left, right, types)) <= larger(depth(left), depth(right)),
        weight(keyed_join(left, right, types)) <= weight(left) * weight(right),
{
    lemma_join_measure(left, right, join_keys(infer(left, types), infer(right, types), types));
}

/// The factors without one of them are not deeper.
pub proof fn lemma_remove_depth(plans: Seq<Plan>, i: int)
    requires
        0 <= i < plans.len(),
    ensures
        max_depth(plans.remove(i)) <= max_depth(plans),
{
    let most = max_depth(plans);
    let rest = plans.remove(i);
    lemma_max_depth(plans, most);
    assert forall|j: int| 0 <= j < rest.len() implies depth(#[trigger] rest[j]) <= most by {
        assert(rest[j] == plans[if j < i { j } else { j + 1 }]);
    }
    lemma_max_depth(rest, most);
}

/// Copying a factor into a union among other factors lowers the weight.
pub proof fn lemma_distribute_flat_measure(factors: Seq<Plan>, types: Types, limits: Limits)
    ensures
        distribute_flat(factors, types, limits) matches Some(plan) ==> depth(plan) <= max_depth(
            factors,
        ) && weight(plan) < weight_product(factors),
{
    if distribute_flat(factors, types, limits) is Some {
        let u = first_taking_union(factors, types, limits).unwrap();
        lemma_first_where(factors, |factor: Plan| takes_factor(factor, types, limits));
        let ranks = distribution_ranks(factors, u, types, limits);
        lemma_greatest(ranks);
        let f = greatest(ranks).unwrap();
        assert(f != u);
        let rest = without_two(factors, u, f);
        let (first, second) = if u < f {
            (f, u)
        } else {
            (u, f)
        };
        lemma_product_without(factors, first);
        lemma_product_without(factors.remove(first), second);
        assert(factors.remove(first)[second] == factors[second]);
        lemma_remove_depth(factors, first);
        lemma_remove_depth(factors.remove(first), second);
        lemma_item_depth(factors, u);
        lemma_item_depth(factors, f);
        lemma_distributed_measure(factors[f], factors[u], types);
        let both = union_all(
            joined_with_each(factors[f], union_branches(factors[u]), types),
        );
        lemma_push_measure(rest, both);
        lemma_joined_measure(rest.push(both));
        lemma_product_positive(rest);
        let (p, x, y, b) = (
            weight_product(rest),
            weight(factors[f]),
            weight(factors[u]),
            weight(both),
        );
        assert(p * b < p * (x * y)) by (nonlinear_arith)
            requires
                p >= 1,
                b < x * y,
        ;
        assert((p * x) * y == p * (x * y) && (p * y) * x == p * (x * y)) by (nonlinear_arith);
    }
}

/// Splitting factors by flags splits their weight.
proof fn lemma_flagged_measure(plans: Seq<Plan>, flags: Seq<bool>)
    ensures
        weight_product(flagged(plans, flags, true)) * weight_product(flagged(plans, flags, false))
            == weight_product(plans),
        max_depth(flagged(plans, flags, true)) <= max_depth(plans),
        max_depth(flagged(plans, flags, false)) <= max_depth(plans),
    decreases plans.len(),
{
    if plans.len() > 0 {
        let shorter = plans.drop_last();
        let last = plans.last();
        lemma_flagged_measure(shorter, flags);
        lemma_push_measure(flagged(shorter, flags, true), last);
        lemma_push_measure(flagged(shorter, flags, false), last);
        let (a, b, c) = (
            weight_product(flagged(shorter, flags, true)),
            weight_product(flagged(shorter, flags, false)),
            weight(last),
        );
        assert((a * c) * b == (a * b) * c && a * (b * c) == (a * b) * c) by (nonlinear_arith);
        assert(weight_product(plans) == (a * b) * c);
        if flags[plans.len() - 1] {
            assert(flagged(plans, flags, true) == flagged(shorter, flags, true).push(last));
            assert(flagged(plans, flags, false) == flagged(shorter, flags, false));
        } else {
            assert(flagged(plans, flags, true) == flagged(shorter, flags, true));
            assert(flagged(plans, flags, false) == flagged(shorter, flags, false).push(last));
        }
    } else {
        assert(weight_product(flagged(plans, flags, true)) == 1);
        assert(weight_product(flagged(plans, flags, false)) == 1);
    }
}

/// Evaluating chosen factors twice weighs at most what the factors weigh with
/// the union of one row without values and the other side.
proof fn lemma_split_with_chosen_measure(factors: Seq<Plan>, chosen: Seq<bool>, right: Plan)
    requires
        flagged(factors, chosen, true).len() > 0,
    ensures
        weight(split_with_chosen(factors, chosen, right)) <= weight_product(factors) * (weight(
            right,
        ) + 3),
        depth(split_with_chosen(factors, chosen, right)) <= larger(
            max_depth(factors),
            depth(right),
        ),
{
    let twice = flagged(factors, chosen, true);
    let once = flagged(factors, chosen, false);
    lemma_flagged_measure(factors, chosen);
    lemma_joined_measure(twice);
    lemma_push_measure(twice, right);
    lemma_joined_measure(twice.push(right));
    let (a, b) = (joined(twice), joined(twice.push(right)));
    lemma_pair_measure(a, b);
    let both = union_all(seq![a, b]);
    lemma_union_measure(seq![a, b]);
    lemma_push_measure(once, both);
    lemma_joined_measure(once.push(both));
    lemma_product_positive(twice);
    let (d, s, r) = (weight_product(twice), weight_product(once), weight(right));
    assert(d + d * r + 3 <= d * (r + 3)) by (nonlinear_arith)
        requires
            d >= 3,
    ;
    lemma_product_grows(s, weight(both), s, d * (r + 3));
    assert(s * (d * (r + 3)) == (d * s) * (r + 3)) by (nonlinear_arith);
    if once.len() == 0 {
        assert(s == 1);
        assert(d * 1 == d) by (nonlinear_arith);
    }
}

/// Splitting guarded factors weighs at most what they weigh with the union.
pub proof fn lemma_split_guarded_measure(
    factors: Seq<Plan>,
    others: Seq<Plan>,
    types: Types,
    limits: Limits,
)
    ensures
        split_guarded(factors, others, types, limits) matches Some(plan) ==> depth(plan) <= larger(
            max_depth(factors),
            max_depth(others),
        ) && weight(plan) <= weight_product(factors) * (total_weight(others) + 6),
{
    match split_guarded(factors, others, types, limits) {
        Some(plan) => {
            let right = union_all(others);
            let keys = join_keys(infer(joined(factors), types), infer(right, types), types);
            let chosen = cover(
                factors,
                keys,
                none_chosen(factors.len()),
                types,
                limits,
                factors.len(),
            ).unwrap();
            let i = choose|i: int|
                0 <= i < factors.len() && chosen[i]
                    && !has_seeded_subclass_lookup(
                    #[trigger] factors[i],
                    types,
                    limits,
                );
            lemma_flagged_has(factors, chosen, true, i);
            lemma_split_with_chosen_measure(factors, chosen, right);
            lemma_union_measure(others);
            lemma_product_grows(
                weight_product(factors),
                weight(right) + 3,
                weight_product(factors),
                total_weight(others) + 6,
            );
        },
        None => {},
    }
}

} // verus!
