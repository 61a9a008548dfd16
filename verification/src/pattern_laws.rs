//! What is promised of the patterns of a basic graph pattern.

use vstd::prelude::*;

use crate::algebra::{is_atom, Plan};
use crate::factors::join_factors;
use crate::for_loop::everything_remains;
use crate::greedy::{least, lemma_least};
use crate::greedy_laws::{are_rounds, law_joins_are_greedy, round_results};
use crate::limits::Limits;
use crate::reorder::{
    attach, components, cross, crossed, deduplicated, entry_keys, greedy_join, grow, next_keys,
    reorder, reorder_below, reorder_each, reorder_join, reordered_factors, Reordering,
};
use crate::rewrites::{has_one_singleton, lemma_first_where, takes_factor};
use crate::type_inference::{distinct_variables, infer, intersect, Types};

verus! {

/// Whether a plan joins only patterns.
pub open spec fn only_patterns(plan: Plan) -> bool
    decreases plan,
{
    match plan {
        Plan::QuadPattern { .. } | Plan::Path { .. } | Plan::Graph { .. } => true,
        Plan::Join { left, right, .. } => only_patterns(*left) && only_patterns(*right),
        _ => false,
    }
}

/// Whether a plan is joined somewhere in another.
pub open spec fn is_joined(plan: Plan, whole: Plan) -> bool
    decreases whole,
{
    match whole {
        Plan::Join { left, right, .. } => is_joined(plan, *left) || is_joined(plan, *right),
        _ => plan == whole,
    }
}

proof fn lemma_joined_patterns(plan: Plan)
    requires
        only_patterns(plan),
    ensures
        forall|i: int| 0 <= i < join_factors(plan).len() ==> is_atom(#[trigger] join_factors(plan)[i]),
        forall|p: Plan| #[trigger] join_factors(plan).contains(p) <==> is_joined(p, plan),
    decreases plan,
{
    if let Plan::Join { left, right, .. } = plan {
        lemma_joined_patterns(*left);
        lemma_joined_patterns(*right);
        let (l, r) = (join_factors(*left), join_factors(*right));
        assert forall|p: Plan| #[trigger] (l + r).contains(p) <==> l.contains(p) || r.contains(p) by {
            if l.contains(p) {
                let i = choose|i: int| 0 <= i < l.len() && l[i] == p;
                assert((l + r)[i] == p);
            }
            if r.contains(p) {
                let i = choose|i: int| 0 <= i < r.len() && r[i] == p;
                assert((l + r)[l.len() + i] == p);
            }
        }
    } else {
        assert(join_factors(plan)[0] == plan);
        assert forall|p: Plan| #[trigger] join_factors(plan).contains(p) <==> is_joined(p, plan) by {
            assert(join_factors(plan) == seq![plan]);
        }
    }
}

proof fn lemma_once_each(plans: Seq<Plan>)
    requires
        forall|i: int| 0 <= i < plans.len() ==> is_atom(#[trigger] plans[i]),
    ensures
        deduplicated(plans).no_duplicates(),
        forall|p: Plan| #[trigger] deduplicated(plans).contains(p) <==> plans.contains(p),
    decreases plans.len(),
{
    if plans.len() > 0 {
        let first = plans.drop_last();
        lemma_once_each(first);
        let before = deduplicated(first);
        let all = deduplicated(plans);
        assert forall|p: Plan| #[trigger] all.contains(p) <==> plans.contains(p) by {
            if all.contains(p) {
                let i = choose|i: int| 0 <= i < all.len() && all[i] == p;
                if i < before.len() {
                    assert(before[i] == p);
                    assert(before.contains(p));
                    assert(first.contains(p));
                    let j = choose|j: int| 0 <= j < first.len() && first[j] == p;
                    assert(plans[j] == p);
                } else {
                    assert(plans[plans.len() - 1] == p);
                }
            }
            if plans.contains(p) {
                let j = choose|j: int| 0 <= j < plans.len() && plans[j] == p;
                if j < first.len() {
                    assert(first[j] == p);
                    assert(before.contains(p));
                    let i = choose|i: int| 0 <= i < before.len() && before[i] == p;
                    assert(all[i] == p);
                } else if before.contains(p) {
                    let i = choose|i: int| 0 <= i < before.len() && before[i] == p;
                    assert(all[i] == p);
                } else {
                    assert(all[before.len() as int] == p);
                }
            }
        }
        assert(all.no_duplicates()) by {
            if !before.contains(plans.last()) {
                assert forall|i: int, j: int|
                    0 <= i < all.len() && 0 <= j < all.len() && i != j implies all[i] != all[j] by {
                    if i < before.len() {
                        assert(before.contains(before[i]));
                    }
                    if j < before.len() {
                        assert(before.contains(before[j]));
                    }
                }
            }
        }
    }
}

proof fn lemma_grow_no_union(
    factors: Seq<Plan>,
    output: Plan,
    output_types: Types,
    remaining: Seq<bool>,
    types: Types,
    limits: Limits,
    rec: Reordering,
    steps: nat,
)
    requires
        !(output is Union),
        remaining.len() == factors.len(),
        forall|i: int| 0 <= i < factors.len() ==> is_atom(#[trigger] factors[i]),
        forall|p: Plan, t: Types| is_atom(p) ==> #[trigger] rec(p, t) == p,
    ensures
        !(grow(factors, output, output_types, remaining, types, limits, rec, steps).0 is Union),
        grow(factors, output, output_types, remaining, types, limits, rec, steps).1.len()
            == factors.len(),
    decreases steps,
{
    if steps > 0 {
        let keys = next_keys(factors, remaining, output, output_types, types, limits);
        lemma_least(keys);
        if let Some(i) = least(keys) {
            let next = attach(output, output_types, factors[i], types, limits, rec);
            assert(is_atom(factors[i]));
            assert(rec(factors[i], output_types) == factors[i]);
            assert(!(next is Union));
            lemma_grow_no_union(
                factors,
                next,
                intersect(output_types, infer(factors[i], types)),
                remaining.update(i, false),
                types,
                limits,
                rec,
                (steps - 1) as nat,
            );
        }
    }
}

proof fn lemma_components_no_union(
    factors: Seq<Plan>,
    remaining: Seq<bool>,
    types: Types,
    limits: Limits,
    rec: Reordering,
    steps: nat,
)
    requires
        remaining.len() == factors.len(),
        forall|i: int| 0 <= i < factors.len() ==> is_atom(#[trigger] factors[i]),
        forall|p: Plan, t: Types| is_atom(p) ==> #[trigger] rec(p, t) == p,
    ensures
        forall|i: int|
            0 <= i < components(factors, remaining, types, limits, rec, steps).len() ==> !(
            #[trigger] components(factors, remaining, types, limits, rec, steps)[i] is Union),
    decreases steps,
{
    if steps > 0 {
        let keys = entry_keys(factors, remaining, types, limits);
        lemma_least(keys);
        if let Some(i) = least(keys) {
            assert(is_atom(factors[i]));
            let t = infer(factors[i], types);
            let left = remaining.update(i, false);
            lemma_grow_no_union(factors, factors[i], t, left, types, limits, rec, factors.len());
            let rest = grow(factors, factors[i], t, left, types, limits, rec, factors.len()).1;
            lemma_components_no_union(factors, rest, types, limits, rec, (steps - 1) as nat);
        }
    }
}

proof fn lemma_crossed_no_union(outputs: Seq<Plan>, types: Types, limits: Limits)
    requires
        forall|i: int| 0 <= i < outputs.len() ==> !(#[trigger] outputs[i] is Union),
    ensures
        !(crossed(outputs, types, limits) is Union),
    decreases outputs.len(),
{
    if outputs.len() > 1 {
        lemma_crossed_no_union(outputs.drop_last(), types, limits);
        let before = crossed(outputs.drop_last(), types, limits);
        assert(!(cross(before, outputs.last(), types, limits) is Union));
    }
}

proof fn lemma_patterns_greedy(
    left: Plan,
    right: Plan,
    types: Types,
    limits: Limits,
    rec: Reordering,
)
    requires
        only_patterns(left),
        only_patterns(right),
        !(rec(left, types) is Union),
        !(rec(right, types) is Union),
        forall|p: Plan, t: Types| is_atom(p) ==> #[trigger] rec(p, t) == p,
    ensures
        reorder_join(left, right, types, limits, rec) == greedy_join(
            deduplicated(join_factors(left) + join_factors(right)),
            types,
            limits,
            rec,
        ),
        !(reorder_join(left, right, types, limits, rec) is Union),
{
    let patterns = join_factors(left) + join_factors(right);
    lemma_joined_patterns(left);
    lemma_joined_patterns(right);
    assert(reorder_each(patterns, types, rec) =~= patterns);
    let factors = deduplicated(patterns);
    assert(reordered_factors(left, right, types, rec) == factors);
    lemma_once_each(patterns);
    assert forall|i: int| 0 <= i < factors.len() implies is_atom(#[trigger] factors[i]) by {
        assert(factors.contains(factors[i]));
        let j = choose|j: int| 0 <= j < patterns.len() && patterns[j] == factors[i];
        assert(is_atom(patterns[j]));
    }
    lemma_first_where(factors, |factor: Plan| takes_factor(factor, types, limits));
    lemma_first_where(factors, |factor: Plan| has_one_singleton(factor));
    let open = everything_remains(factors.len());
    lemma_components_no_union(factors, open, types, limits, rec, factors.len());
    lemma_crossed_no_union(
        components(factors, open, types, limits, rec, factors.len()),
        types,
        limits,
    );
}

proof fn lemma_atoms_stay(plan: Plan, limits: Limits)
    ensures
        forall|p: Plan, t: Types| is_atom(p) ==> #[trigger] reorder_below(plan, limits)(p, t) == p,
{
    assert forall|p: Plan, t: Types| is_atom(p) implies #[trigger] reorder_below(plan, limits)(p, t)
        == p by {
        assert(reorder(p, t, limits) == p);
    }
}

proof fn lemma_patterns_no_union(plan: Plan, types: Types, limits: Limits)
    requires
        only_patterns(plan),
    ensures
        !(reorder(plan, types, limits) is Union),
    decreases plan,
{
    if let Plan::Join { left, right, .. } = plan {
        lemma_patterns_no_union(*left, types, limits);
        lemma_patterns_no_union(*right, types, limits);
        lemma_atoms_stay(plan, limits);
        lemma_patterns_greedy(*left, *right, types, limits, reorder_below(plan, limits));
    }
}

/// A join of patterns, however it is nested, is reordered as one: each of the
/// patterns is joined once, and they are picked greedily.
pub proof fn law_patterns_are_greedy(
    left: Plan,
    right: Plan,
    keys: Seq<Seq<char>>,
    types: Types,
    limits: Limits,
)
    requires
        distinct_variables(types),
        only_patterns(left),
        only_patterns(right),
    ensures
        exists|patterns: Seq<Plan>, rounds: Seq<(Seq<int>, Seq<Plan>)>, rec: Reordering|
            {
                let plan = Plan::Join { left: Box::new(left), right: Box::new(right), keys };
                &&& patterns.no_duplicates()
                &&& forall|p: Plan| #[trigger]
                    patterns.contains(p) <==> is_joined(p, left) || is_joined(p, right)
                &&& forall|p: Plan, t: Types| is_atom(p) ==> #[trigger] rec(p, t) == p
                &&& #[trigger] are_rounds(
                    patterns,
                    rounds,
                    everything_remains(patterns.len()),
                    types,
                    limits,
                    rec,
                )
                &&& reorder(plan, types, limits) == crossed(round_results(rounds), types, limits)
            },
{
    let plan = Plan::Join { left: Box::new(left), right: Box::new(right), keys };
    let rec = reorder_below(plan, limits);
    lemma_atoms_stay(plan, limits);
    lemma_patterns_no_union(left, types, limits);
    lemma_patterns_no_union(right, types, limits);
    lemma_patterns_greedy(left, right, types, limits, rec);
    let patterns = join_factors(left) + join_factors(right);
    lemma_joined_patterns(left);
    lemma_joined_patterns(right);
    lemma_joined_patterns(plan);
    lemma_once_each(patterns);
    let factors = deduplicated(patterns);
    assert forall|p: Plan| #[trigger] factors.contains(p) <==> is_joined(p, left) || is_joined(
        p,
        right,
    ) by {
        assert(join_factors(plan) == patterns);
        assert(join_factors(plan).contains(p) <==> is_joined(p, plan));
    }
    law_joins_are_greedy(factors, types, limits, rec);
    let rounds = choose|rounds: Seq<(Seq<int>, Seq<Plan>)>|
        {
            &&& #[trigger] are_rounds(
                factors,
                rounds,
                everything_remains(factors.len()),
                types,
                limits,
                rec,
            )
            &&& greedy_join(factors, types, limits, rec) == crossed(
                round_results(rounds),
                types,
                limits,
            )
        };
    assert(reorder(plan, types, limits) == crossed(round_results(rounds), types, limits));
}

} // verus!
