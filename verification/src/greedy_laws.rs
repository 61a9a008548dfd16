//! What is promised of the order of joins.
//!
//! Joined plans are picked one after the other. The smallest comes first. After it
//! comes, again and again, the plan that makes the smallest join with what is joined
//! already, among the plans that share a variable with it.

use vstd::prelude::*;
use vstd::set_lib::{lemma_int_range, lemma_len_subset, set_int_range};

use crate::algebra::Plan;
use crate::builders::{is_empty, is_empty_singleton, join, lateral};
use crate::estimate::{capped_product, keys_factor, plan_penalty, plan_size};
use crate::for_loop::{everything_remains, fits};
use crate::greedy::lemma_least;
use crate::key_laws::{are_keys, lemma_keys};
use crate::limits::Limits;
use crate::lookups::{entry_size, have_common_variable, is_key, join_keys};
use crate::reorder::{
    components, cross, crossed, entry_keys, greedy_join, grow, next_keys, Reordering,
};
use crate::type_inference::{
    distinct_variables, infer, intersect, lemma_position, position, type_of, Types,
};
use crate::type_laws::{lemma_infer_distinct, lemma_intersect_types};

verus! {

/// Whether a variable always has a value in one of some joined plans and in another
/// plan, and is not fixed from outside.
pub open spec fn is_shared(v: Seq<char>, done: Seq<Plan>, plan: Plan, types: Types) -> bool {
    &&& type_of(types, v).undef
    &&& !type_of(infer(plan, types), v).undef
    &&& exists|i: int| 0 <= i < done.len() && !type_of(infer(#[trigger] done[i], types), v).undef
}

pub open spec fn shared_variables(done: Seq<Plan>, plan: Plan, types: Types) -> Set<Seq<char>> {
    Set::new(|v: Seq<char>| is_shared(v, done, plan, types))
}

/// Whether a plan shares a variable with some joined plans.
pub open spec fn are_linked(done: Seq<Plan>, plan: Plan, types: Types) -> bool {
    exists|v: Seq<char>| is_shared(v, done, plan, types)
}

/// The types of the solutions of some joined plans.
pub open spec fn joint_types(done: Seq<Plan>, types: Types) -> Types
    decreases done.len(),
{
    if done.len() == 0 {
        types
    } else if done.len() == 1 {
        infer(done[0], types)
    } else {
        intersect(joint_types(done.drop_last(), types), infer(done.last(), types))
    }
}

/// The number of solutions that are expected when a plan is joined to the join of
/// some plans: in a loop over that join, or by the variables that it shares with
/// them, each of which divides the number of pairs.
pub open spec fn step_size(
    output: Plan,
    done: Seq<Plan>,
    factor: Plan,
    types: Types,
    limits: Limits,
) -> nat {
    let known = joint_types(done, types);
    let rows = plan_size(output, types, limits);
    if fits(factor, types, known, entry_size(output, types, limits), limits) {
        capped_product(rows, plan_size(factor, known, limits))
    } else {
        capped_product(rows, plan_size(factor, types, limits)) / keys_factor(
            shared_variables(done, factor, types).len(),
        )
    }
}

/// Whether a plan is the join of another with a further one: a loop over it, where
/// the further plan fits one, or a join by exactly the variables that are shared.
pub open spec fn is_step(
    next: Plan,
    output: Plan,
    done: Seq<Plan>,
    factor: Plan,
    types: Types,
    limits: Limits,
    rec: Reordering,
) -> bool {
    let known = joint_types(done, types);
    if fits(factor, types, known, entry_size(output, types, limits), limits) {
        next == lateral(output, rec(factor, known))
    } else {
        exists|keys: Seq<Seq<char>>|
            #![trigger join(output, factor, keys)]
            {
                &&& next == join(output, factor, keys)
                &&& keys.no_duplicates()
                &&& forall|v: Seq<char>|
                    #![trigger keys.contains(v)]
                    keys.contains(v) <==> is_shared(v, done, factor, types)
            }
    }
}

/// The plans at some places.
pub open spec fn picked(factors: Seq<Plan>, picks: Seq<int>) -> Seq<Plan> {
    picks.map_values(|i: int| factors[i])
}

/// Whether a place is open and not picked yet.
pub open spec fn is_open(i: int, open: Seq<bool>, picks: Seq<int>) -> bool {
    0 <= i < open.len() && open[i] && !picks.contains(i)
}

/// Whether the join with one plan is not larger than that with another. Of two that
/// are equally large, the plan with the smaller penalty comes first.
pub open spec fn comes_first(
    first: Plan,
    second: Plan,
    output: Plan,
    done: Seq<Plan>,
    types: Types,
    limits: Limits,
) -> bool {
    let (a, b) = (
        step_size(output, done, first, types, limits),
        step_size(output, done, second, types, limits),
    );
    let known = joint_types(done, types);
    a < b || a == b && plan_penalty(first, known) <= plan_penalty(second, known)
}

/// Whether the pick at a place is the best of those that were possible: it shares a
/// variable with what is joined already, and comes first among all that do.
pub open spec fn is_best_pick(
    factors: Seq<Plan>,
    picks: Seq<int>,
    outputs: Seq<Plan>,
    open: Seq<bool>,
    types: Types,
    limits: Limits,
    rec: Reordering,
    k: int,
) -> bool {
    let before = picks.take(k);
    let done = picked(factors, before);
    let output = outputs[k - 1];
    let pick = factors[picks[k]];
    &&& is_open(picks[k], open, before)
    &&& are_linked(done, pick, types)
    &&& is_step(outputs[k], output, done, pick, types, limits, rec)
    &&& forall|j: int| #[trigger]
        is_open(j, open, before) && are_linked(done, factors[j], types) ==> comes_first(
            pick,
            factors[j],
            output,
            done,
            types,
            limits,
        )
}

/// Whether some picks, and the joins after each of them, are the best ones.
pub open spec fn is_greedy(
    factors: Seq<Plan>,
    picks: Seq<int>,
    outputs: Seq<Plan>,
    open: Seq<bool>,
    types: Types,
    limits: Limits,
    rec: Reordering,
) -> bool {
    &&& picks.len() >= 1
    &&& picks.len() == outputs.len()
    &&& 0 <= picks[0] < open.len()
    &&& open[picks[0]]
    &&& outputs[0] == factors[picks[0]]
    &&& forall|k: int|
        1 <= k < picks.len() ==> #[trigger] is_best_pick(
            factors,
            picks,
            outputs,
            open,
            types,
            limits,
            rec,
            k,
        )
}

/// Whether no open plan shares a variable with those that are picked.
pub open spec fn is_complete(
    factors: Seq<Plan>,
    picks: Seq<int>,
    open: Seq<bool>,
    types: Types,
) -> bool {
    forall|j: int| #[trigger]
        is_open(j, open, picks) ==> !are_linked(picked(factors, picks), factors[j], types)
}

/// The places that are open after some picks.
pub open spec fn still_open(open: Seq<bool>, picks: Seq<int>) -> Seq<bool> {
    Seq::new(open.len(), |i: int| open[i] && !picks.contains(i))
}

/// The variables with a value in a join are those with a value in one of its parts.
pub proof fn lemma_joint_types(done: Seq<Plan>, types: Types)
    requires
        distinct_variables(types),
        done.len() > 0,
    ensures
        distinct_variables(joint_types(done, types)),
        forall|v: Seq<char>|
            !(#[trigger] type_of(joint_types(done, types), v)).undef <==> exists|i: int|
                0 <= i < done.len() && !type_of(infer(#[trigger] done[i], types), v).undef,
    decreases done.len(),
{
    lemma_infer_distinct(done.last(), types);
    if done.len() > 1 {
        let shorter = done.drop_last();
        lemma_joint_types(shorter, types);
        lemma_intersect_types(joint_types(shorter, types), infer(done.last(), types));
        assert forall|v: Seq<char>|
            !(#[trigger] type_of(joint_types(done, types), v)).undef <==> exists|i: int|
                0 <= i < done.len() && !type_of(infer(#[trigger] done[i], types), v).undef by {
            let n = done.len() - 1;
            if !type_of(joint_types(shorter, types), v).undef {
                let i = choose|i: int|
                    0 <= i < shorter.len() && !type_of(infer(#[trigger] shorter[i], types), v).undef;
                assert(done[i] == shorter[i]);
            }
            if exists|i: int|
                0 <= i < done.len() && !type_of(infer(#[trigger] done[i], types), v).undef {
                let i = choose|i: int|
                    0 <= i < done.len() && !type_of(infer(#[trigger] done[i], types), v).undef;
                if i < n {
                    assert(shorter[i] == done[i]);
                }
            }
            assert(done[n] == done.last());
        }
    } else {
        assert(done[0] == done.last());
    }
}

/// The keys of a join with some joined plans are the shared variables.
proof fn lemma_shared(done: Seq<Plan>, plan: Plan, types: Types)
    requires
        distinct_variables(types),
        done.len() > 0,
    ensures
        ({
            let (known, other) = (joint_types(done, types), infer(plan, types));
            let keys = join_keys(known, other, types);
            &&& keys.no_duplicates()
            &&& forall|v: Seq<char>| #[trigger]
                keys.contains(v) <==> is_shared(v, done, plan, types)
            &&& keys.len() == shared_variables(done, plan, types).len()
            &&& have_common_variable(known, other, types) <==> are_linked(done, plan, types)
        }),
{
    let (known, other) = (joint_types(done, types), infer(plan, types));
    let keys = join_keys(known, other, types);
    lemma_joint_types(done, types);
    lemma_infer_distinct(plan, types);
    lemma_keys(known, other, types);
    assert(are_keys(keys, known, other, types));
    assert forall|v: Seq<char>| #[trigger] keys.contains(v) <==> is_shared(
        v,
        done,
        plan,
        types,
    ) by {
        assert(type_of(known, v).undef || !type_of(known, v).undef);
    }
    assert(keys.to_set() =~= shared_variables(done, plan, types));
    keys.unique_seq_to_set();
    if have_common_variable(known, other, types) {
        let i = choose|i: int| 0 <= i < known.len() && is_key(#[trigger] known[i], other, types);
        let v = known[i].0;
        lemma_position(known, v);
        assert(position(known, v) == i);
        assert(!type_of(known, v).undef);
        assert(is_shared(v, done, plan, types));
    }
    if are_linked(done, plan, types) {
        let v = choose|v: Seq<char>| is_shared(v, done, plan, types);
        assert(!type_of(known, v).undef);
        lemma_position(known, v);
        let i = position(known, v);
        assert(is_key(known[i], other, types));
    }
}

/// Picks without repetition are no more than there are places.
proof fn lemma_few_picks(picks: Seq<int>, count: nat)
    requires
        picks.no_duplicates(),
        forall|k: int| 0 <= k < picks.len() ==> 0 <= #[trigger] picks[k] < count,
    ensures
        picks.len() <= count,
{
    picks.unique_seq_to_set();
    lemma_int_range(0, count as int);
    assert(picks.to_set().subset_of(set_int_range(0, count as int)));
    lemma_len_subset(picks.to_set(), set_int_range(0, count as int));
}

/// The picks of a greedy join are different.
proof fn lemma_different_picks(
    factors: Seq<Plan>,
    picks: Seq<int>,
    outputs: Seq<Plan>,
    open: Seq<bool>,
    types: Types,
    limits: Limits,
    rec: Reordering,
)
    requires
        is_greedy(factors, picks, outputs, open, types, limits, rec),
    ensures
        picks.no_duplicates(),
        forall|k: int| 0 <= k < picks.len() ==> 0 <= #[trigger] picks[k] < open.len(),
{
    assert forall|k: int| 0 <= k < picks.len() implies 0 <= #[trigger] picks[k] < open.len() by {
        if k > 0 {
            assert(is_best_pick(factors, picks, outputs, open, types, limits, rec, k));
        }
    }
    assert forall|a: int, b: int|
        0 <= a < picks.len() && 0 <= b < picks.len() && a != b implies picks[a] != picks[b] by {
        let (low, high) = if a < b {
            (a, b)
        } else {
            (b, a)
        };
        assert(is_best_pick(factors, picks, outputs, open, types, limits, rec, high));
        assert(picks.take(high)[low] == picks[low]);
        assert(picks.take(high).contains(picks[low]));
    }
}

/// One more best pick.
proof fn lemma_next_pick(
    factors: Seq<Plan>,
    picks: Seq<int>,
    outputs: Seq<Plan>,
    open: Seq<bool>,
    types: Types,
    limits: Limits,
    rec: Reordering,
    i: int,
    next: Plan,
)
    requires
        is_greedy(factors, picks, outputs, open, types, limits, rec),
        is_open(i, open, picks),
        ({
            let done = picked(factors, picks);
            &&& are_linked(done, factors[i], types)
            &&& is_step(next, outputs.last(), done, factors[i], types, limits, rec)
            &&& forall|j: int| #[trigger]
                is_open(j, open, picks) && are_linked(done, factors[j], types) ==> comes_first(
                    factors[i],
                    factors[j],
                    outputs.last(),
                    done,
                    types,
                    limits,
                )
        }),
    ensures
        is_greedy(factors, picks.push(i), outputs.push(next), open, types, limits, rec),
{
    let (all, plans) = (picks.push(i), outputs.push(next));
    let n = picks.len() as int;
    assert forall|k: int| 1 <= k < all.len() implies #[trigger] is_best_pick(
        factors,
        all,
        plans,
        open,
        types,
        limits,
        rec,
        k,
    ) by {
        if k < n {
            assert(is_best_pick(factors, picks, outputs, open, types, limits, rec, k));
            assert(all.take(k) =~= picks.take(k));
        } else {
            assert(all.take(n) =~= picks);
            assert(plans[n - 1] == outputs.last());
        }
    }
}

/// Growing a join goes on with the best picks until nothing open is linked to it.
proof fn lemma_grow_greedy(
    factors: Seq<Plan>,
    picks: Seq<int>,
    outputs: Seq<Plan>,
    open: Seq<bool>,
    remaining: Seq<bool>,
    types: Types,
    limits: Limits,
    rec: Reordering,
    steps: nat,
) -> (trace: (Seq<int>, Seq<Plan>))
    requires
        distinct_variables(types),
        open.len() == factors.len(),
        remaining == still_open(open, picks),
        is_greedy(factors, picks, outputs, open, types, limits, rec),
        steps + picks.len() > factors.len(),
    ensures
        ({
            let known = joint_types(picked(factors, picks), types);
            let (output, rest) = grow(
                factors,
                outputs.last(),
                known,
                remaining,
                types,
                limits,
                rec,
                steps,
            );
            &&& is_greedy(factors, trace.0, trace.1, open, types, limits, rec)
            &&& is_complete(factors, trace.0, open, types)
            &&& trace.0[0] == picks[0]
            &&& trace.1.last() == output
            &&& rest == still_open(open, trace.0)
        }),
    decreases steps,
{
    let done = picked(factors, picks);
    let known = joint_types(done, types);
    let output = outputs.last();
    lemma_different_picks(factors, picks, outputs, open, types, limits, rec);
    lemma_few_picks(picks, factors.len());
    lemma_joint_types(done, types);
    let keys = next_keys(factors, remaining, output, known, types, limits);
    crate::greedy::lemma_least(keys);
    assert forall|j: int| is_open(j, open, picks) implies 0 <= j < keys.len()
        && #[trigger] remaining[j] by {
    }
    match crate::greedy::least(keys) {
        Some(i) => {
            assert(keys[i] is Some);
            assert(is_open(i, open, picks));
            lemma_shared(done, factors[i], types);
            let next = crate::reorder::attach(output, known, factors[i], types, limits, rec);
            assert(is_step(next, output, done, factors[i], types, limits, rec)) by {
                let shared = join_keys(known, infer(factors[i], types), types);
                assert(!fits(
                    factors[i],
                    types,
                    known,
                    entry_size(output, types, limits),
                    limits,
                ) ==> next == join(output, factors[i], shared));
            }
            assert forall|j: int| #[trigger]
                is_open(j, open, picks) && are_linked(done, factors[j], types) implies comes_first(
                factors[i],
                factors[j],
                output,
                done,
                types,
                limits,
            ) by {
                lemma_shared(done, factors[j], types);
                assert(remaining[j]);
                assert(keys[j] is Some);
            }
            lemma_next_pick(factors, picks, outputs, open, types, limits, rec, i, next);
            let (all, plans) = (picks.push(i), outputs.push(next));
            assert(picked(factors, all) =~= done.push(factors[i]));
            assert(done.push(factors[i]).drop_last() =~= done);
            assert(remaining.update(i, false) =~= still_open(open, all)) by {
                assert forall|j: int| 0 <= j < open.len() implies remaining.update(i, false)[j]
                    == #[trigger] still_open(open, all)[j] by {
                    assert(all[all.len() - 1] == i);
                    if picks.contains(j) {
                        let k = choose|k: int| 0 <= k < picks.len() && picks[k] == j;
                        assert(all[k] == j);
                    }
                    if all.contains(j) && j != i {
                        let k = choose|k: int| 0 <= k < all.len() && all[k] == j;
                        assert(picks[k] == j);
                    }
                }
            }
            assert(plans.last() == next);
            lemma_grow_greedy(
                factors,
                all,
                plans,
                open,
                remaining.update(i, false),
                types,
                limits,
                rec,
                (steps - 1) as nat,
            )
        },
        None => {
            assert forall|j: int| #[trigger] is_open(j, open, picks) implies !are_linked(
                done,
                factors[j],
                types,
            ) by {
                lemma_shared(done, factors[j], types);
                assert(keys[j] is None);
                assert(remaining[j]);
            }
            (picks, outputs)
        },
    }
}

/// Whether some rounds of picks are greedy, one after the other, until nothing is
/// open: each begins with the smallest open plan, of equally small ones with the one
/// with the least penalty, and ends when no open plan is linked to it.
pub open spec fn are_rounds(
    factors: Seq<Plan>,
    rounds: Seq<(Seq<int>, Seq<Plan>)>,
    open: Seq<bool>,
    types: Types,
    limits: Limits,
    rec: Reordering,
) -> bool
    decreases rounds.len(),
{
    if rounds.len() == 0 {
        forall|j: int| 0 <= j < open.len() ==> !#[trigger] open[j]
    } else {
        let (picks, outputs) = rounds[0];
        &&& is_greedy(factors, picks, outputs, open, types, limits, rec)
        &&& is_complete(factors, picks, open, types)
        &&& forall|j: int|
            0 <= j < open.len() && #[trigger] open[j] ==> is_smaller(
                factors[picks[0]],
                factors[j],
                types,
                limits,
            )
        &&& are_rounds(factors, rounds.drop_first(), still_open(open, picks), types, limits, rec)
    }
}

pub open spec fn is_smaller(first: Plan, second: Plan, types: Types, limits: Limits) -> bool {
    let (a, b) = (plan_size(first, types, limits), plan_size(second, types, limits));
    a < b || a == b && plan_penalty(first, types) <= plan_penalty(second, types)
}

/// The joins that some rounds end with.
pub open spec fn round_results(rounds: Seq<(Seq<int>, Seq<Plan>)>) -> Seq<Plan> {
    rounds.map_values(|round: (Seq<int>, Seq<Plan>)| round.1.last())
}

/// The number of places that are open.
spec fn count_open(open: Seq<bool>) -> nat
    decreases open.len(),
{
    if open.len() == 0 {
        0
    } else {
        count_open(open.drop_last()) + if open.last() {
            1nat
        } else {
            0
        }
    }
}

proof fn lemma_count_less(open: Seq<bool>, fewer: Seq<bool>, i: int)
    requires
        open.len() == fewer.len(),
        forall|j: int| 0 <= j < open.len() && #[trigger] fewer[j] ==> open[j],
        0 <= i < open.len(),
        open[i],
        !fewer[i],
    ensures
        count_open(fewer) < count_open(open),
    decreases open.len(),
{
    let (a, b) = (open.drop_last(), fewer.drop_last());
    assert forall|j: int| 0 <= j < a.len() && #[trigger] b[j] implies a[j] by {
        assert(fewer[j]);
    }
    if i < open.len() - 1 {
        lemma_count_less(a, b, i);
    } else {
        lemma_count_fewer(a, b);
    }
    assert(fewer.last() ==> open.last()) by {
        assert(fewer.last() == fewer[fewer.len() - 1]);
    }
}

proof fn lemma_count_fewer(open: Seq<bool>, fewer: Seq<bool>)
    requires
        open.len() == fewer.len(),
        forall|j: int| 0 <= j < open.len() && #[trigger] fewer[j] ==> open[j],
    ensures
        count_open(fewer) <= count_open(open) <= open.len(),
    decreases open.len(),
{
    if open.len() > 0 {
        let (a, b) = (open.drop_last(), fewer.drop_last());
        assert forall|j: int| 0 <= j < a.len() && #[trigger] b[j] implies a[j] by {
            assert(fewer[j]);
        }
        lemma_count_fewer(a, b);
        assert(fewer.last() ==> open.last()) by {
            assert(fewer.last() == fewer[fewer.len() - 1]);
        }
    }
}

proof fn lemma_count_some(open: Seq<bool>, i: int)
    requires
        0 <= i < open.len(),
        open[i],
    ensures
        count_open(open) > 0,
    decreases open.len(),
{
    if i < open.len() - 1 {
        lemma_count_some(open.drop_last(), i);
    }
}

/// The components of some plans come from rounds of best picks.
proof fn lemma_components_greedy(
    factors: Seq<Plan>,
    open: Seq<bool>,
    types: Types,
    limits: Limits,
    rec: Reordering,
    steps: nat,
) -> (rounds: Seq<(Seq<int>, Seq<Plan>)>)
    requires
        distinct_variables(types),
        open.len() == factors.len(),
        count_open(open) <= steps,
    ensures
        are_rounds(factors, rounds, open, types, limits, rec),
        round_results(rounds) == components(factors, open, types, limits, rec, steps),
    decreases steps,
{
    let none: Seq<(Seq<int>, Seq<Plan>)> = seq![];
    let keys = entry_keys(factors, open, types, limits);
    lemma_least(keys);
    if steps == 0 {
        assert forall|j: int| 0 <= j < open.len() implies !#[trigger] open[j] by {
            if open[j] {
                lemma_count_some(open, j);
            }
        }
        assert(round_results(none) =~= components(factors, open, types, limits, rec, steps));
        none
    } else {
        match crate::greedy::least(keys) {
            Some(i) => {
                assert(keys[i] is Some);
                let (picks, outputs) = (seq![i], seq![factors[i]]);
                assert(picked(factors, picks) =~= seq![factors[i]]);
                assert(open.update(i, false) =~= still_open(open, picks)) by {
                    assert forall|j: int| 0 <= j < open.len() implies open.update(i, false)[j]
                        == #[trigger] still_open(open, picks)[j] by {
                        assert(picks[0] == i);
                    }
                }
                let (all, plans) = lemma_grow_greedy(
                    factors,
                    picks,
                    outputs,
                    open,
                    open.update(i, false),
                    types,
                    limits,
                    rec,
                    factors.len(),
                );
                let rest = still_open(open, all);
                assert(all.contains(all[0]));
                lemma_count_less(open, rest, i);
                let others = lemma_components_greedy(
                    factors,
                    rest,
                    types,
                    limits,
                    rec,
                    (steps - 1) as nat,
                );
                let rounds = seq![(all, plans)] + others;
                assert(rounds.drop_first() =~= others);
                assert forall|j: int| 0 <= j < open.len() && #[trigger] open[j] implies is_smaller(
                    factors[all[0]],
                    factors[j],
                    types,
                    limits,
                ) by {
                    assert(keys[j] is Some);
                }
                assert(round_results(rounds) =~= seq![plans.last()] + round_results(others));
                rounds
            },
            None => {
                assert forall|j: int| 0 <= j < open.len() implies !#[trigger] open[j] by {
                    assert(keys[j] is None);
                }
                assert(round_results(none) =~= components(
                    factors,
                    open,
                    types,
                    limits,
                    rec,
                    steps,
                ));
                none
            },
        }
    }
}

/// Joined plans are put in order by rounds of best picks. A round begins with the
/// smallest plan that is left. It goes on with the plan that makes the smallest join
/// with what the round has joined so far, among those that share a variable with it,
/// until there is none. All plans get picked. Joins are loops, or made by exactly the
/// shared variables. The results of the rounds share no variables and are crossed.
pub proof fn law_joins_are_greedy(
    factors: Seq<Plan>,
    types: Types,
    limits: Limits,
    rec: Reordering,
)
    requires
        distinct_variables(types),
    ensures
        exists|rounds: Seq<(Seq<int>, Seq<Plan>)>|
            {
                &&& #[trigger] are_rounds(
                    factors,
                    rounds,
                    everything_remains(factors.len()),
                    types,
                    limits,
                    rec,
                )
                &&& greedy_join(factors, types, limits, rec) == crossed(
                    round_results(rounds),
                    types,
                    limits,
                )
            },
{
    let open = everything_remains(factors.len());
    lemma_count_fewer(open, open);
    let rounds = lemma_components_greedy(factors, open, types, limits, rec, factors.len());
    assert(are_rounds(factors, rounds, open, types, limits, rec));
}

/// Of two plans that are crossed, the smaller one comes first, and the keys are the
/// variables that both always bind.
pub proof fn law_smaller_side_first(left: Plan, right: Plan, types: Types, limits: Limits)
    requires
        distinct_variables(types),
        !is_empty(left) && !is_empty_singleton(left),
        !is_empty(right) && !is_empty_singleton(right),
    ensures
        cross(left, right, types, limits) matches Plan::Join { left: first, right: second, keys }
            && {
            &&& *first == left && *second == right || *first == right && *second == left
            &&& plan_size(*first, types, limits) <= plan_size(*second, types, limits)
            &&& are_keys(keys, infer(*first, types), infer(*second, types), types)
        },
{
    lemma_infer_distinct(left, types);
    lemma_infer_distinct(right, types);
    lemma_keys(infer(left, types), infer(right, types), types);
}

} // verus!
