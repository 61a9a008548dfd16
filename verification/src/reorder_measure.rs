//! Reordering does not raise the weight of a plan, nor nest EXISTS deeper.

use vstd::prelude::*;

use crate::algebra::{is_atom, Expr, Plan};
use crate::builders::{
    all_branches, branches, empty_singleton, is_empty_singleton, known_truth, left_join, union_all,
};
use crate::depth::{
    lemma_join_factors_measure, lemma_joined_measure, lemma_normalize_depth, lemma_push_depth,
};
use crate::estimate::larger;
use crate::factors::{join_factors, joined, lemma_has_factor};
use crate::for_loop::everything_remains;
use crate::greedy::{least, lemma_least};
use crate::limits::Limits;
use crate::lookups::join_keys;
use crate::measure::{
    depth, expr_depth, exprs_depth, left_weight, lemma_and_or_depth, lemma_concat_depth,
    lemma_concat_weight, lemma_exprs_depth, lemma_filter_measure, lemma_item_depth,
    lemma_join_measure, lemma_lateral_measure, lemma_left_join_measure, lemma_minus_measure,
    lemma_not_depth, lemma_pair_measure, lemma_product_grows, lemma_product_positive,
    lemma_product_without, lemma_push_measure, lemma_single_measure, lemma_unary_measure,
    lemma_union_measure, lemma_weight_positive, lower, max_depth, total_weight, weight,
    weight_product,
};
use crate::normalize::normalize;
use crate::push_filters::push;
use crate::reorder::{
    attach, components, crossed, deduplicated, entry_keys, greedy_join, grow, next_keys,
    optimize_with, optimizer, reorder, reorder_all_exists, reorder_below, reorder_each,
    reorder_exists, reorder_factors, reorder_join, reorder_left_join, reorder_step,
    reordered_factors, without_singleton, Reordering,
};
use crate::rewrite_measure::{
    lemma_distribute_either_measure, lemma_distribute_flat_measure,
    lemma_filter_instead_of_either_measure, lemma_keyed_join_measure, lemma_one_singleton_measure,
    lemma_remove_depth, lemma_split_guarded_measure, lemma_split_off_singleton_measure,
};
use crate::rewrites::{
    distribute_flat, first_singleton_union, flagged, has_one_singleton, keyed_join,
    lemma_first_where, singleton_others,
};
use crate::type_inference::{infer, intersect, Types};

verus! {

/// A reordering that raises neither the weight nor the depth of any plan, and
/// leaves one row without values alone.
pub open spec fn shrinks(rec: Reordering) -> bool {
    forall|plan: Plan, types: Types|
        {
            &&& weight(#[trigger] rec(plan, types)) <= weight(plan)
            &&& depth(rec(plan, types)) <= depth(plan)
            &&& is_empty_singleton(plan) ==> rec(plan, types) == plan
        }
}

/// What remains weighs what a factor weighs, times what remains without it.
proof fn lemma_take_remaining(factors: Seq<Plan>, remaining: Seq<bool>, i: int)
    requires
        0 <= i < factors.len() <= remaining.len(),
        remaining[i],
    ensures
        weight_product(flagged(factors, remaining, true)) == weight(factors[i]) * weight_product(
            flagged(factors, remaining.update(i, false), true),
        ),
    decreases factors.len(),
{
    let shorter = factors.drop_last();
    let after = remaining.update(i, false);
    let last = factors.last();
    if i == factors.len() - 1 {
        lemma_flagged_prefix(shorter, remaining, after);
        lemma_push_measure(flagged(shorter, remaining, true), last);
        let (a, b) = (weight_product(flagged(shorter, after, true)), weight(last));
        assert(flagged(factors, remaining, true) == flagged(shorter, remaining, true).push(last));
        assert(flagged(factors, after, true) == flagged(shorter, after, true));
        assert(a * b == b * a) by (nonlinear_arith);
    } else {
        lemma_take_remaining(shorter, remaining, i);
        lemma_push_measure(flagged(shorter, remaining, true), last);
        lemma_push_measure(flagged(shorter, after, true), last);
        assert(shorter[i] == factors[i]);
        let (x, a, c) = (
            weight(factors[i]),
            weight_product(flagged(shorter, after, true)),
            weight(last),
        );
        assert((x * a) * c == x * (a * c)) by (nonlinear_arith);
        if remaining[factors.len() - 1] {
            assert(flagged(factors, remaining, true) == flagged(shorter, remaining, true).push(
                last,
            ));
            assert(flagged(factors, after, true) == flagged(shorter, after, true).push(last));
        } else {
            assert(flagged(factors, remaining, true) == flagged(shorter, remaining, true));
            assert(flagged(factors, after, true) == flagged(shorter, after, true));
        }
    }
}

pub proof fn lemma_flagged_prefix(factors: Seq<Plan>, first: Seq<bool>, second: Seq<bool>)
    requires
        forall|i: int| 0 <= i < factors.len() ==> #[trigger] first[i] == second[i],
    ensures
        flagged(factors, first, true) == flagged(factors, second, true),
    decreases factors.len(),
{
    if factors.len() > 0 {
        lemma_flagged_prefix(factors.drop_last(), first, second);
        assert(first[factors.len() - 1] == second[factors.len() - 1]);
    }
}

pub proof fn lemma_all_flagged(factors: Seq<Plan>, flags: Seq<bool>)
    requires
        forall|i: int| 0 <= i < factors.len() ==> #[trigger] flags[i],
    ensures
        flagged(factors, flags, true) == factors,
    decreases factors.len(),
{
    if factors.len() > 0 {
        lemma_all_flagged(factors.drop_last(), flags);
        assert(flags[factors.len() - 1]);
        assert(flagged(factors, flags, true) =~= factors);
    }
}

proof fn lemma_attach_measure(
    output: Plan,
    output_types: Types,
    factor: Plan,
    types: Types,
    limits: Limits,
    rec: Reordering,
)
    requires
        shrinks(rec),
    ensures
        weight(attach(output, output_types, factor, types, limits, rec)) <= weight(output) * weight(
            factor,
        ),
        depth(attach(output, output_types, factor, types, limits, rec)) <= larger(
            depth(output),
            depth(factor),
        ),
{
    let inner = rec(factor, output_types);
    lemma_lateral_measure(output, inner);
    lemma_product_grows(weight(output), weight(inner), weight(output), weight(factor));
    lemma_join_measure(output, factor, join_keys(output_types, infer(factor, types), types));
}

/// Joining the connected factors does not raise the weight.
pub proof fn lemma_grow_measure(
    factors: Seq<Plan>,
    output: Plan,
    output_types: Types,
    remaining: Seq<bool>,
    types: Types,
    limits: Limits,
    rec: Reordering,
    steps: nat,
)
    requires
        shrinks(rec),
        remaining.len() == factors.len(),
        depth(output) <= max_depth(factors),
    ensures
        ({
            let (grown, rest) = grow(
                factors,
                output,
                output_types,
                remaining,
                types,
                limits,
                rec,
                steps,
            );
            &&& rest.len() == factors.len()
            &&& depth(grown) <= max_depth(factors)
            &&& weight(grown) * weight_product(flagged(factors, rest, true)) <= weight(output)
                * weight_product(flagged(factors, remaining, true))
        }),
    decreases steps,
{
    if steps > 0 {
        let keys = next_keys(factors, remaining, output, output_types, types, limits);
        lemma_least(keys);
        match least(keys) {
            Some(i) => {
                let next = attach(output, output_types, factors[i], types, limits, rec);
                let after = remaining.update(i, false);
                lemma_attach_measure(output, output_types, factors[i], types, limits, rec);
                lemma_item_depth(factors, i);
                lemma_grow_measure(
                    factors,
                    next,
                    intersect(output_types, infer(factors[i], types)),
                    after,
                    types,
                    limits,
                    rec,
                    (steps - 1) as nat,
                );
                lemma_take_remaining(factors, remaining, i);
                let (o, f, p) = (
                    weight(output),
                    weight(factors[i]),
                    weight_product(flagged(factors, after, true)),
                );
                lemma_product_grows(weight(next), p, o * f, p);
                assert((o * f) * p == o * (f * p)) by (nonlinear_arith);
            },
            None => {},
        }
    }
}

proof fn lemma_components_measure(
    factors: Seq<Plan>,
    remaining: Seq<bool>,
    types: Types,
    limits: Limits,
    rec: Reordering,
    steps: nat,
)
    requires
        shrinks(rec),
        remaining.len() == factors.len(),
    ensures
        weight_product(components(factors, remaining, types, limits, rec, steps))
            <= weight_product(flagged(factors, remaining, true)),
        max_depth(components(factors, remaining, types, limits, rec, steps)) <= max_depth(factors),
    decreases steps,
{
    lemma_product_positive(flagged(factors, remaining, true));
    if steps > 0 {
        let keys = entry_keys(factors, remaining, types, limits);
        lemma_least(keys);
        match least(keys) {
            Some(i) => {
                let after = remaining.update(i, false);
                lemma_item_depth(factors, i);
                lemma_grow_measure(
                    factors,
                    factors[i],
                    infer(factors[i], types),
                    after,
                    types,
                    limits,
                    rec,
                    factors.len(),
                );
                let (output, rest) = grow(
                    factors,
                    factors[i],
                    infer(factors[i], types),
                    after,
                    types,
                    limits,
                    rec,
                    factors.len(),
                );
                lemma_take_remaining(factors, remaining, i);
                let tail = components(factors, rest, types, limits, rec, (steps - 1) as nat);
                lemma_components_measure(
                    factors,
                    rest,
                    types,
                    limits,
                    rec,
                    (steps - 1) as nat,
                );
                lemma_single_measure(output);
                lemma_concat_weight(seq![output], tail);
                lemma_concat_depth(seq![output], tail, max_depth(factors));
                lemma_product_grows(
                    weight(output),
                    weight_product(tail),
                    weight(output),
                    weight_product(flagged(factors, rest, true)),
                );
            },
            None => {},
        }
    }
}

proof fn lemma_crossed_measure(outputs: Seq<Plan>, types: Types, limits: Limits)
    ensures
        depth(crossed(outputs, types, limits)) <= max_depth(outputs),
        outputs.len() > 0 ==> weight(crossed(outputs, types, limits)) <= weight_product(outputs),
    decreases outputs.len(),
{
    if outputs.len() == 1 {
        lemma_single_measure(outputs[0]);
        assert(outputs =~= seq![outputs[0]]);
    } else if outputs.len() > 1 {
        let shorter = outputs.drop_last();
        let last = outputs.last();
        lemma_crossed_measure(shorter, types, limits);
        let left = crossed(shorter, types, limits);
        let keys = join_keys(infer(left, types), infer(last, types), types);
        lemma_join_measure(left, last, keys);
        lemma_join_measure(last, left, keys);
        assert(weight(last) * weight(left) == weight(left) * weight(last)) by (nonlinear_arith);
        lemma_product_grows(weight(left), weight(last), weight_product(shorter), weight(last));
    }
}

/// Putting joined plans in order does not raise their weight.
proof fn lemma_greedy_join_measure(
    factors: Seq<Plan>,
    types: Types,
    limits: Limits,
    rec: Reordering,
)
    requires
        shrinks(rec),
        factors.len() > 0,
    ensures
        weight(greedy_join(factors, types, limits, rec)) <= weight_product(factors),
        depth(greedy_join(factors, types, limits, rec)) <= max_depth(factors),
{
    let all = everything_remains(factors.len());
    lemma_all_flagged(factors, all);
    lemma_components_measure(factors, all, types, limits, rec, factors.len());
    let outputs = components(factors, all, types, limits, rec, factors.len());
    lemma_crossed_measure(outputs, types, limits);
    let keys = entry_keys(factors, all, types, limits);
    lemma_least(keys);
    assert(keys[0] is Some);
    assert(outputs.len() > 0);
}

proof fn lemma_deduplicated_measure(plans: Seq<Plan>)
    ensures
        weight_product(deduplicated(plans)) <= weight_product(plans),
        max_depth(deduplicated(plans)) <= max_depth(plans),
        plans.len() > 0 ==> deduplicated(plans).len() > 0,
    decreases plans.len(),
{
    if plans.len() > 0 {
        let before = deduplicated(plans.drop_last());
        let last = plans.last();
        lemma_deduplicated_measure(plans.drop_last());
        lemma_push_measure(before, last);
        lemma_weight_positive(last);
        lemma_product_grows(
            weight_product(before),
            weight(last),
            weight_product(plans.drop_last()),
            weight(last),
        );
        lemma_product_grows(
            weight_product(before),
            1,
            weight_product(plans.drop_last()),
            weight(last),
        );
        if is_atom(last) && before.contains(last) {
            assert(before.len() > 0);
        }
    }
}

proof fn lemma_reorder_each_measure(plans: Seq<Plan>, types: Types, rec: Reordering)
    requires
        shrinks(rec),
    ensures
        weight_product(reorder_each(plans, types, rec)) <= weight_product(plans),
        total_weight(reorder_each(plans, types, rec)) <= total_weight(plans),
        max_depth(reorder_each(plans, types, rec)) <= max_depth(plans),
    decreases plans.len(),
{
    let all = reorder_each(plans, types, rec);
    if plans.len() > 0 {
        let shorter = plans.drop_last();
        let last = plans.last();
        lemma_reorder_each_measure(shorter, types, rec);
        assert(all.drop_last() =~= reorder_each(shorter, types, rec));
        assert(all.last() == rec(last, types));
        lemma_product_grows(
            weight_product(all.drop_last()),
            weight(rec(last, types)),
            weight_product(shorter),
            weight(last),
        );
    }
}

/// What the factors of a join weigh, each reordered and without duplicates.
pub proof fn lemma_reordered_factors_measure(
    left: Plan,
    right: Plan,
    types: Types,
    rec: Reordering,
)
    requires
        shrinks(rec),
    ensures
        weight_product(reordered_factors(left, right, types, rec)) <= weight(left) * weight(right),
        max_depth(reordered_factors(left, right, types, rec)) <= larger(depth(left), depth(right)),
        reordered_factors(left, right, types, rec).len() > 0,
{
    let all = join_factors(left) + join_factors(right);
    lemma_join_factors_measure(left);
    lemma_join_factors_measure(right);
    lemma_concat_weight(join_factors(left), join_factors(right));
    lemma_concat_depth(join_factors(left), join_factors(right), larger(depth(left), depth(right)));
    lemma_reorder_each_measure(all, types, rec);
    lemma_deduplicated_measure(reorder_each(all, types, rec));
    lemma_has_factor(left);
}

/// What is split off a join with a union that has one row without values.
pub proof fn lemma_base_measure(factors: Seq<Plan>, index: int)
    requires
        factors.len() > 2,
        0 <= index < factors.len(),
        has_one_singleton(factors[index]),
    ensures
        ({
            let others = singleton_others(factors[index]);
            let base = factors.remove(index);
            let branch = base.push(union_all(others));
            &&& max_depth(others) <= max_depth(factors)
            &&& weight(joined(base)) < weight_product(factors)
            &&& depth(joined(base)) <= max_depth(factors)
            &&& weight(joined(base)) <= weight_product(base)
            &&& max_depth(base) <= max_depth(factors)
            &&& weight(joined(branch)) < weight_product(factors)
            &&& depth(joined(branch)) <= max_depth(factors)
            &&& weight(joined(branch)) <= weight_product(base) * (total_weight(others) + 3)
            &&& weight_product(base) >= 3
            &&& weight_product(factors) == weight_product(base) * (total_weight(others) + 6)
        }),
{
    let others = singleton_others(factors[index]);
    let base = factors.remove(index);
    let right = union_all(others);
    let branch = base.push(right);
    lemma_one_singleton_measure(factors[index]);
    lemma_product_without(factors, index);
    lemma_remove_depth(factors, index);
    lemma_item_depth(factors, index);
    lemma_joined_measure(base);
    lemma_union_measure(others);
    lemma_push_measure(base, right);
    lemma_joined_measure(branch);
    lemma_product_positive(base);
    let (p, r, t) = (weight_product(base), weight(right), total_weight(others));
    lemma_product_grows(p, r, p, t + 3);
    assert(p * (t + 3) < p * (t + 6) && p < p * (t + 6)) by (nonlinear_arith)
        requires
            p >= 3,
    ;
}

proof fn lemma_without_singleton_measure(
    factors: Seq<Plan>,
    index: int,
    types: Types,
    limits: Limits,
    rec: Reordering,
)
    requires
        shrinks(rec),
        factors.len() > 2,
        0 <= index < factors.len(),
        has_one_singleton(factors[index]),
    ensures
        weight(without_singleton(factors, index, types, limits, rec)) <= weight_product(factors),
        depth(without_singleton(factors, index, types, limits, rec)) <= max_depth(factors),
{
    let others = singleton_others(factors[index]);
    let base = factors.remove(index);
    let base_join = rec(joined(base), types);
    let branch = base.push(union_all(others));
    let branch_join = rec(joined(branch), types);
    lemma_base_measure(factors, index);
    lemma_split_guarded_measure(base, others, types, limits);
    lemma_split_guarded_measure(join_factors(base_join), others, types, limits);
    lemma_join_factors_measure(base_join);
    let (p, t) = (weight_product(base), total_weight(others));
    lemma_product_grows(weight(base_join), t + 6, p, t + 6);
    lemma_pair_measure(base_join, branch_join);
    lemma_union_measure(seq![base_join, branch_join]);
    assert(p + p * (t + 3) + 3 <= p * (t + 6)) by (nonlinear_arith)
        requires
            p >= 3,
    ;
}

/// Reordering the factors of a join does not raise their weight.
pub proof fn lemma_reorder_factors_measure(
    factors: Seq<Plan>,
    types: Types,
    limits: Limits,
    rec: Reordering,
)
    requires
        shrinks(rec),
        factors.len() > 0,
    ensures
        weight(reorder_factors(factors, types, limits, rec)) <= weight_product(factors),
        depth(reorder_factors(factors, types, limits, rec)) <= max_depth(factors),
{
    lemma_distribute_flat_measure(factors, types, limits);
    lemma_first_where(factors, |factor: Plan| has_one_singleton(factor));
    lemma_greedy_join_measure(factors, types, limits, rec);
    match distribute_flat(factors, types, limits) {
        Some(plan) => {
            assert(weight(rec(plan, types)) <= weight(plan));
        },
        None => {
            match first_singleton_union(factors) {
                Some(i) => {
                    if factors.len() > 2 {
                        lemma_without_singleton_measure(factors, i, types, limits, rec);
                    }
                },
                None => {},
            }
        },
    }
}

proof fn lemma_reorder_join_measure(
    left: Plan,
    right: Plan,
    types: Types,
    limits: Limits,
    rec: Reordering,
)
    requires
        shrinks(rec),
    ensures
        weight(reorder_join(left, right, types, limits, rec)) <= weight(left) * weight(right),
        depth(reorder_join(left, right, types, limits, rec)) <= larger(depth(left), depth(right)),
{
    let new_left = rec(left, types);
    let new_right = rec(right, types);
    lemma_filter_instead_of_either_measure(left, right, types, limits);
    lemma_distribute_either_measure(left, right, types, limits);
    lemma_split_off_singleton_measure(left, right, new_left, new_right, types, limits);
    lemma_keyed_join_measure(new_left, new_right, types);
    lemma_product_grows(weight(new_left), weight(new_right), weight(left), weight(right));
    lemma_reordered_factors_measure(left, right, types, rec);
    lemma_reorder_factors_measure(
        reordered_factors(left, right, types, rec),
        types,
        limits,
        rec,
    );
}

proof fn lemma_reorder_left_join_measure(
    left: Plan,
    right: Plan,
    expression: Expr,
    types: Types,
    limits: Limits,
)
    ensures
        weight(reorder_left_join(left, right, expression, types, limits)) <= left_weight(left) * (
        weight(right) + 1),
        depth(reorder_left_join(left, right, expression, types, limits)) <= larger(
            larger(depth(left), depth(right)),
            expr_depth(expression),
        ),
{
    let keys = join_keys(infer(left, types), infer(right, types), types);
    lemma_left_join_measure(left, right, expression, keys);
    lemma_weight_positive(left);
    lemma_weight_positive(right);
    if known_truth(expression) == Some(true) && has_one_singleton(right) {
        lemma_one_singleton_measure(right);
        let others = singleton_others(right);
        let rest = union_all(others);
        lemma_union_measure(others);
        lemma_keyed_join_measure(left, rest, types);
        let both = keyed_join(left, rest, types);
        lemma_pair_measure(left, both);
        lemma_union_measure(seq![left, both]);
        let (l, r, t) = (weight(left), weight(rest), total_weight(others));
        if is_empty_singleton(left) {
            assert(weight(both) <= larger(r, 3));
            assert(1 * (t + 7) == t + 7) by (nonlinear_arith);
            lemma_row_union_measure(left, rest, others, types);
        } else {
            lemma_product_grows(l, r, l, t + 3);
            assert(l + l * (t + 3) + 3 <= l * (t + 7) && l <= l * (t + 7)) by (nonlinear_arith)
                requires
                    l >= 3,
            ;
        }
    } else {
        let single = empty_singleton();
        assert(is_empty_singleton(single));
        let inner = left_join(single, right, expression, seq![]);
        lemma_left_join_measure(single, right, expression, seq![]);
        assert(depth(single) == 0);
        assert(1 * (weight(right) + 1) == weight(right) + 1) by (nonlinear_arith);
        if is_empty_singleton(left) {
            assert(left_weight(left) == 1);
        } else {
            lemma_lateral_measure(left, inner);
            lemma_product_grows(weight(left), weight(inner), weight(left), weight(right) + 1);
        }
    }
}

/// One row without values and its join with some branches, together.
proof fn lemma_row_union_measure(row: Plan, rest: Plan, others: Seq<Plan>, types: Types)
    requires
        is_empty_singleton(row),
        rest == union_all(others),
    ensures
        weight(union_all(seq![row, keyed_join(row, rest, types)])) <= total_weight(others) + 7,
{
    let both = keyed_join(row, rest, types);
    let pair = seq![row, both];
    let none = Seq::<Plan>::empty();
    lemma_single_measure(row);
    lemma_union_measure(others);
    assert(pair.drop_last() =~= seq![row]);
    assert(seq![row].drop_last() =~= none);
    assert(all_branches(none) =~= none);
    assert(branches(row) =~= seq![row]);
    assert(all_branches(seq![row]) =~= seq![row]);
    assert(all_branches(pair) =~= seq![row] + branches(both));
    lemma_concat_weight(seq![row], branches(both));
    assert(total_weight(branches(both)) <= total_weight(others));
}

/// Optimizing the plans of some EXISTS does not nest EXISTS deeper.
proof fn lemma_reorder_exists_depth(
    expression: Expr,
    types: Types,
    limits: Limits,
    optimized: Reordering,
)
    requires
        forall|plan: Plan, t: Types| depth(#[trigger] optimized(plan, t)) <= depth(plan),
    ensures
        expr_depth(reorder_exists(expression, types, limits, optimized)) <= expr_depth(expression),
    decreases expression,
{
    match expression {
        Expr::Or(inner)
        | Expr::And(inner)
        | Expr::Coalesce(inner)
        | Expr::FunctionCall(_, inner) => {
            let most = exprs_depth(inner);
            let all = reorder_all_exists(inner, types, limits, optimized);
            lemma_exprs_depth(inner, most);
            assert forall|i: int| 0 <= i < all.len() implies expr_depth(#[trigger] all[i])
                <= most by {
                assert(expr_depth(inner[i]) <= most);
                lemma_reorder_exists_depth(inner[i], types, limits, optimized);
            }
            lemma_exprs_depth(all, most);
            lemma_and_or_depth(all);
        },
        Expr::Equal(left, right)
        | Expr::SameTerm(left, right)
        | Expr::Greater(left, right)
        | Expr::GreaterOrEqual(left, right)
        | Expr::Less(left, right)
        | Expr::LessOrEqual(left, right)
        | Expr::Add(left, right)
        | Expr::Subtract(left, right)
        | Expr::Multiply(left, right)
        | Expr::Divide(left, right) => {
            lemma_reorder_exists_depth(*left, types, limits, optimized);
            lemma_reorder_exists_depth(*right, types, limits, optimized);
        },
        Expr::UnaryPlus(inner) | Expr::UnaryMinus(inner) => {
            lemma_reorder_exists_depth(*inner, types, limits, optimized);
        },
        Expr::Not(inner) => {
            lemma_reorder_exists_depth(*inner, types, limits, optimized);
            lemma_not_depth(reorder_exists(*inner, types, limits, optimized));
        },
        Expr::If(condition, then_case, else_case) => {
            lemma_reorder_exists_depth(*condition, types, limits, optimized);
            lemma_reorder_exists_depth(*then_case, types, limits, optimized);
            lemma_reorder_exists_depth(*else_case, types, limits, optimized);
        },
        Expr::Exists(inner) => {
            assert(depth(optimized(*inner, types)) <= depth(*inner));
        },
        _ => {},
    }
}

/// A step of the reordering does not raise the weight of a plan, nor nest
/// EXISTS deeper.
proof fn lemma_reorder_step_measure(plan: Plan, types: Types, limits: Limits, rec: Reordering)
    requires
        shrinks(rec),
    ensures
        weight(reorder_step(plan, types, limits, rec)) <= weight(plan),
        depth(reorder_step(plan, types, limits, rec)) <= depth(plan),
{
    match plan {
        Plan::Join { left, right, .. } => {
            lemma_reorder_join_measure(*left, *right, types, limits, rec);
        },
        Plan::Lateral { left, right } => {
            let (l, r) = (rec(*left, types), rec(*right, infer(*left, types)));
            lemma_lateral_measure(l, r);
            lemma_product_grows(weight(l), weight(r), weight(*left), weight(*right));
        },
        Plan::LeftJoin { left, right, expression, .. } => {
            let (l, r) = (rec(*left, types), rec(*right, types));
            lemma_reorder_left_join_measure(l, r, expression, types, limits);
            lemma_weight_positive(*left);
            assert(left_weight(l) <= left_weight(*left));
            lemma_product_grows(
                left_weight(l),
                weight(r) + 1,
                left_weight(*left),
                weight(*right) + 1,
            );
        },
        Plan::Minus { left, right, .. } => {
            let (l, r) = (rec(*left, types), rec(*right, types));
            lemma_minus_measure(l, r, join_keys(infer(l, types), infer(r, types), types));
        },
        Plan::Filter { inner, expression } => {
            let new_inner = rec(*inner, types);
            let optimized = optimize_with(rec);
            assert forall|p: Plan, t: Types| depth(#[trigger] optimized(p, t)) <= depth(p) by {
                lemma_normalize_depth(p, t);
                assert(depth(rec(normalize(p, t), t)) <= depth(normalize(p, t)));
                lemma_push_depth(rec(normalize(p, t), t), seq![], t);
                assert(exprs_depth(Seq::<Expr>::empty()) == 0);
            }
            lemma_reorder_exists_depth(expression, infer(new_inner, types), limits, optimized);
            lemma_filter_measure(
                new_inner,
                reorder_exists(expression, infer(new_inner, types), limits, optimized),
            );
        },
        Plan::Union { inner } => {
            lemma_reorder_each_measure(inner, types, rec);
            lemma_union_measure(reorder_each(inner, types, rec));
        },
        Plan::Extend { inner, .. }
        | Plan::Slice { inner, .. }
        | Plan::Distinct { inner }
        | Plan::Reduced { inner }
        | Plan::Project { inner, .. }
        | Plan::OrderBy { inner, .. }
        | Plan::Group { inner, .. } => {
            lemma_unary_measure(rec(*inner, types));
            assert(weight(rec(*inner, types)) <= weight(*inner));
        },
        _ => {},
    }
}

/// Reordering does not raise the weight of a plan, nor nest EXISTS deeper.
pub proof fn lemma_reorder_measure(plan: Plan, types: Types, limits: Limits)
    ensures
        weight(reorder(plan, types, limits)) <= weight(plan),
        depth(reorder(plan, types, limits)) <= depth(plan),
    decreases depth(plan), weight(plan),
{
    let rec = reorder_below(plan, limits);
    assert forall|other: Plan, t: Types|
        {
            &&& weight(#[trigger] rec(other, t)) <= weight(other)
            &&& depth(rec(other, t)) <= depth(other)
            &&& is_empty_singleton(other) ==> rec(other, t) == other
        } by {
        if lower(other, plan) {
            lemma_reorder_measure(other, t, limits);
        }
    }
    lemma_reorder_step_measure(plan, types, limits, rec);
}

/// The same of all the plans below a given one.
pub proof fn lemma_reorder_below_shrinks(plan: Plan, limits: Limits)
    ensures
        shrinks(reorder_below(plan, limits)),
{
    let rec = reorder_below(plan, limits);
    assert forall|other: Plan, t: Types|
        {
            &&& weight(#[trigger] rec(other, t)) <= weight(other)
            &&& depth(rec(other, t)) <= depth(other)
            &&& is_empty_singleton(other) ==> rec(other, t) == other
        } by {
        lemma_reorder_measure(other, t, limits);
    }
}

/// The plans of the EXISTS in a plan are below it, so each of them is optimized.
pub proof fn lemma_exists_below(expression: Expr, types: Types, limits: Limits, plan: Plan)
    requires
        expr_depth(expression) <= depth(plan),
    ensures
        reorder_exists(expression, types, limits, optimize_with(reorder_below(plan, limits)))
            == reorder_exists(expression, types, limits, optimizer(limits)),
    decreases expression,
{
    let below = optimize_with(reorder_below(plan, limits));
    let all = optimizer(limits);
    match expression {
        Expr::Or(inner)
        | Expr::And(inner)
        | Expr::Coalesce(inner)
        | Expr::FunctionCall(_, inner) => {
            lemma_exprs_depth(inner, depth(plan));
            assert forall|i: int| 0 <= i < inner.len() implies reorder_exists(
                #[trigger] inner[i],
                types,
                limits,
                below,
            ) == reorder_exists(inner[i], types, limits, all) by {
                assert(expr_depth(inner[i]) <= depth(plan));
                lemma_exists_below(inner[i], types, limits, plan);
            }
            assert(reorder_all_exists(inner, types, limits, below) =~= reorder_all_exists(
                inner,
                types,
                limits,
                all,
            ));
        },
        Expr::Equal(left, right)
        | Expr::SameTerm(left, right)
        | Expr::Greater(left, right)
        | Expr::GreaterOrEqual(left, right)
        | Expr::Less(left, right)
        | Expr::LessOrEqual(left, right)
        | Expr::Add(left, right)
        | Expr::Subtract(left, right)
        | Expr::Multiply(left, right)
        | Expr::Divide(left, right) => {
            lemma_exists_below(*left, types, limits, plan);
            lemma_exists_below(*right, types, limits, plan);
        },
        Expr::UnaryPlus(inner) | Expr::UnaryMinus(inner) | Expr::Not(inner) => {
            lemma_exists_below(*inner, types, limits, plan);
        },
        Expr::If(condition, then_case, else_case) => {
            lemma_exists_below(*condition, types, limits, plan);
            lemma_exists_below(*then_case, types, limits, plan);
            lemma_exists_below(*else_case, types, limits, plan);
        },
        Expr::Exists(inner) => {
            lemma_normalize_depth(*inner, types);
            assert(lower(normalize(*inner, types), plan));
            assert(below(*inner, types) == all(*inner, types));
        },
        _ => {},
    }
}

} // verus!
