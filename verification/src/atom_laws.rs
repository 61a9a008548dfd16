//! What becomes of the atoms of a join when it is reordered.

use vstd::prelude::*;

use crate::algebra::{is_atom, Plan};
use crate::bags::{
    gather, lemma_gather_concat, lemma_gather_single, lemma_same_concat, lemma_same_items,
    lemma_same_swap, same,
};
use crate::builders::{is_empty, is_empty_singleton};
use crate::factors::{join_factors, lemma_has_factor};
use crate::for_loop::everything_remains;
use crate::greedy::{least, lemma_least};
use crate::limits::Limits;
use crate::ordering_laws::{lemma_none_flagged, lemma_take_remaining};
use crate::reorder::{
    attach, components, crossed, deduplicated, entry_keys, greedy_join, grow, next_keys, reorder,
    reorder_below, reorder_each, reorder_factors, reorder_join, reordered_factors, Reordering,
};
use crate::reorder_measure::lemma_all_flagged;
use crate::rewrites::{
    distribute_either, distribute_flat, filter_instead_of_either, first_singleton_union,
    first_taking_union, flagged, has_one_singleton, lemma_first_where, split_off_singleton,
    takes_factor,
};
use crate::type_inference::{infer, intersect, Types};

verus! {

/// The plans that a nest of joins and loops joins, from left to right.
pub open spec fn leaves(plan: Plan) -> Seq<Plan>
    decreases plan,
{
    match plan {
        Plan::Join { left, right, .. } | Plan::Lateral { left, right } => leaves(*left) + leaves(
            *right,
        ),
        _ => seq![plan],
    }
}

/// The same of some plans, all together.
spec fn all_leaves(plans: Seq<Plan>) -> Seq<Plan> {
    gather(plans, |plan: Plan| leaves(plan))
}

pub open spec fn all_atoms(plans: Seq<Plan>) -> bool {
    forall|i: int| 0 <= i < plans.len() ==> is_atom(#[trigger] plans[i])
}

/// A plan that is not dropped where it is joined.
spec fn is_solid(plan: Plan) -> bool {
    !is_empty(plan) && !is_empty_singleton(plan)
}

/// Reordering leaves atoms as they are.
spec fn keeps_atoms(rec: Reordering) -> bool {
    forall|plan: Plan, types: Types| is_atom(plan) ==> #[trigger] rec(plan, types) == plan
}

/// A join grows by the atoms that no longer remain.
proof fn lemma_grow_leaves(
    factors: Seq<Plan>,
    output: Plan,
    output_types: Types,
    remaining: Seq<bool>,
    types: Types,
    limits: Limits,
    rec: Reordering,
    steps: nat,
)
    requires
        all_atoms(factors),
        remaining.len() == factors.len(),
        is_solid(output),
        keeps_atoms(rec),
    ensures
        ({
            let (grown, rest) = grow(
                factors,
                output,
                output_types,
                remaining,
                types,
                limits,
                rec,
                steps,
            );
            let (before, after) = (
                flagged(factors, remaining, true),
                flagged(factors, rest, true),
            );
            &&& is_solid(grown)
            &&& rest.len() == factors.len()
            &&& after.len() <= before.len()
            &&& same(leaves(grown) + after, leaves(output) + before)
        }),
    decreases steps,
{
    let keys = next_keys(factors, remaining, output, output_types, types, limits);
    lemma_least(keys);
    if steps > 0 && least(keys) is Some {
        let i = least(keys).unwrap();
        let factor = factors[i];
        let joined = attach(output, output_types, factor, types, limits, rec);
        let left = remaining.update(i, false);
        let (before, after) = (flagged(factors, remaining, true), flagged(factors, left, true));
        assert(rec(factor, output_types) == factor);
        assert(leaves(factor) == seq![factor]);
        assert(leaves(joined) == leaves(output) + seq![factor]);
        lemma_take_remaining(factors, remaining, i);
        lemma_same_concat(leaves(output), seq![factor] + after, leaves(output), before);
        assert(leaves(output) + (seq![factor] + after) =~= leaves(joined) + after);
        lemma_grow_leaves(
            factors,
            joined,
            intersect(output_types, infer(factor, types)),
            left,
            types,
            limits,
            rec,
            (steps - 1) as nat,
        );
    }
}

/// The connected joins hold the atoms that remain.
proof fn lemma_components_leaves(
    factors: Seq<Plan>,
    remaining: Seq<bool>,
    types: Types,
    limits: Limits,
    rec: Reordering,
    steps: nat,
)
    requires
        all_atoms(factors),
        remaining.len() == factors.len(),
        keeps_atoms(rec),
        flagged(factors, remaining, true).len() <= steps,
    ensures
        ({
            let parts = components(factors, remaining, types, limits, rec, steps);
            &&& same(all_leaves(parts), flagged(factors, remaining, true))
            &&& forall|i: int| 0 <= i < parts.len() ==> is_solid(#[trigger] parts[i])
        }),
    decreases steps,
{
    let old = flagged(factors, remaining, true);
    let parts = components(factors, remaining, types, limits, rec, steps);
    let keys = entry_keys(factors, remaining, types, limits);
    lemma_least(keys);
    if steps > 0 && least(keys) is Some {
        let i = least(keys).unwrap();
        let factor = factors[i];
        let t = infer(factor, types);
        let left = remaining.update(i, false);
        let after = flagged(factors, left, true);
        let n = factors.len();
        let (output, rest) = grow(factors, factor, t, left, types, limits, rec, n);
        let next = (steps - 1) as nat;
        let more = components(factors, rest, types, limits, rec, next);
        let f = |plan: Plan| leaves(plan);
        lemma_take_remaining(factors, remaining, i);
        lemma_grow_leaves(factors, factor, t, left, types, limits, rec, n);
        assert(leaves(factor) == seq![factor]);
        lemma_components_leaves(factors, rest, types, limits, rec, next);
        lemma_gather_concat(seq![output], more, f);
        lemma_gather_single(output, f);
        let part = flagged(factors, rest, true);
        lemma_same_concat(leaves(output), all_leaves(more), leaves(output), part);
    } else {
        if steps > 0 {
            assert forall|i: int| 0 <= i < factors.len() implies !#[trigger] remaining[i] by {
                assert(keys[i] is None);
            }
            lemma_none_flagged(factors, remaining);
        }
        assert(old =~= seq![]);
        assert(all_leaves(parts) =~= seq![]);
    }
}

/// Joins that are not connected keep their atoms.
proof fn lemma_crossed_leaves(outputs: Seq<Plan>, types: Types, limits: Limits)
    requires
        outputs.len() > 0,
        forall|i: int| 0 <= i < outputs.len() ==> is_solid(#[trigger] outputs[i]),
    ensures
        is_solid(crossed(outputs, types, limits)),
        same(leaves(crossed(outputs, types, limits)), all_leaves(outputs)),
    decreases outputs.len(),
{
    let f = |plan: Plan| leaves(plan);
    let last = outputs.last();
    assert(outputs[outputs.len() - 1] == last);
    if outputs.len() == 1 {
        assert(outputs =~= seq![last]);
        lemma_gather_single(last, f);
    } else {
        let shorter = outputs.drop_last();
        assert forall|i: int| 0 <= i < shorter.len() implies is_solid(#[trigger] shorter[i]) by {
            assert(shorter[i] == outputs[i]);
        }
        lemma_crossed_leaves(shorter, types, limits);
        let first = crossed(shorter, types, limits);
        lemma_same_concat(leaves(first), leaves(last), all_leaves(shorter), leaves(last));
        lemma_same_swap(leaves(first), leaves(last));
    }
}

/// Atoms without those that occur again.
proof fn lemma_distinct_atoms(plans: Seq<Plan>)
    requires
        all_atoms(plans),
    ensures
        all_atoms(deduplicated(plans)),
        deduplicated(plans).no_duplicates(),
        deduplicated(plans).to_set() == plans.to_set(),
        plans.len() > 0 ==> deduplicated(plans).len() > 0,
    decreases plans.len(),
{
    let all = deduplicated(plans);
    if plans.len() > 0 {
        let shorter = plans.drop_last();
        let before = deduplicated(shorter);
        let last = plans.last();
        assert forall|i: int| 0 <= i < shorter.len() implies is_atom(#[trigger] shorter[i]) by {
            assert(shorter[i] == plans[i]);
        }
        assert(is_atom(plans[plans.len() - 1]));
        lemma_distinct_atoms(shorter);
        assert forall|plan: Plan| all.contains(plan) <==> plans.contains(plan) by {
            assert(before.contains(plan) == before.to_set().contains(plan));
            assert(shorter.contains(plan) == shorter.to_set().contains(plan));
            if plans.contains(plan) {
                let i = choose|i: int| 0 <= i < plans.len() && plans[i] == plan;
                if i < shorter.len() {
                    assert(shorter[i] == plan);
                }
            }
            if shorter.contains(plan) {
                let i = choose|i: int| 0 <= i < shorter.len() && shorter[i] == plan;
                assert(plans[i] == plan);
            }
            if before.contains(plan) {
                let i = choose|i: int| 0 <= i < before.len() && before[i] == plan;
                assert(all[i] == plan);
            }
            assert(plans[plans.len() - 1] == last);
            if !before.contains(last) {
                assert(all[before.len() as int] == last);
            }
        }
        assert(all.to_set() =~= plans.to_set());
    }
}

/// Joined atoms in a good order.
proof fn lemma_greedy_leaves(
    factors: Seq<Plan>,
    types: Types,
    limits: Limits,
    rec: Reordering,
)
    requires
        factors.len() > 0,
        all_atoms(factors),
        keeps_atoms(rec),
    ensures
        same(leaves(greedy_join(factors, types, limits, rec)), factors),
{
    let n = factors.len();
    let all = everything_remains(n);
    let parts = components(factors, all, types, limits, rec, n);
    lemma_all_flagged(factors, all);
    lemma_components_leaves(factors, all, types, limits, rec, n);
    if parts.len() == 0 {
        assert(all_leaves(parts) =~= seq![]);
        lemma_same_items(all_leaves(parts), factors);
    }
    lemma_crossed_leaves(parts, types, limits);
}

/// No union is among joined atoms.
proof fn lemma_no_union(factors: Seq<Plan>, types: Types, limits: Limits)
    requires
        all_atoms(factors),
    ensures
        first_taking_union(factors, types, limits) is None,
        first_singleton_union(factors) is None,
{
    lemma_first_where(factors, |factor: Plan| takes_factor(factor, types, limits));
    lemma_first_where(factors, |factor: Plan| has_one_singleton(factor));
}

/// A join of atoms, reordered.
proof fn lemma_join_leaves(left: Plan, right: Plan, types: Types, limits: Limits, rec: Reordering)
    requires
        all_atoms(join_factors(left) + join_factors(right)),
        keeps_atoms(rec),
        rec(left, types) !is Union,
        rec(right, types) !is Union,
    ensures
        same(
            leaves(reorder_join(left, right, types, limits, rec)),
            deduplicated(join_factors(left) + join_factors(right)),
        ),
{
    let (l, r) = (join_factors(left), join_factors(right));
    let all = l + r;
    let factors = reordered_factors(left, right, types, rec);
    lemma_has_factor(left);
    lemma_has_factor(right);
    assert(left !is Union && right !is Union) by {
        assert(all[0] == l[0]);
        assert(all[l.len() as int] == r[0]);
    }
    assert(reorder_each(all, types, rec) =~= all) by {
        assert forall|i: int| 0 <= i < all.len() implies rec(#[trigger] all[i], types)
            == all[i] by {
            assert(is_atom(all[i]));
        }
    }
    lemma_distinct_atoms(all);
    lemma_no_union(factors, types, limits);
    lemma_greedy_leaves(factors, types, limits, rec);
    assert(filter_instead_of_either(left, right, types, limits) is None);
    assert(distribute_either(left, right, types, limits) is None);
    assert(!has_one_singleton(left) && !has_one_singleton(right));
    assert(distribute_flat(factors, types, limits) is None);
    let (a, b) = (rec(left, types), rec(right, types));
    assert(split_off_singleton(left, right, a, b, types, limits) is None);
    assert(reorder_factors(factors, types, limits, rec) == greedy_join(
        factors,
        types,
        limits,
        rec,
    ));
}

proof fn lemma_keeps_atoms(plan: Plan, limits: Limits)
    ensures
        keeps_atoms(reorder_below(plan, limits)),
{
    let rec = reorder_below(plan, limits);
    assert forall|part: Plan, types: Types| is_atom(part) implies #[trigger] rec(part, types)
        == part by {
        assert(reorder(part, types, limits) == part);
    }
}

proof fn lemma_reorder_unfolds(plan: Plan, types: Types, limits: Limits)
    ensures
        plan matches Plan::Join { left, right, .. } ==> reorder(plan, types, limits)
            == reorder_join(*left, *right, types, limits, reorder_below(plan, limits)),
        is_atom(plan) ==> reorder(plan, types, limits) == plan,
{
}

proof fn lemma_atoms_split(l: Seq<Plan>, r: Seq<Plan>)
    requires
        all_atoms(l + r),
    ensures
        all_atoms(l),
        all_atoms(r),
{
    let all = l + r;
    assert forall|i: int| 0 <= i < l.len() implies is_atom(#[trigger] l[i]) by {
        assert(all[i] == l[i]);
    }
    assert forall|i: int| 0 <= i < r.len() implies is_atom(#[trigger] r[i]) by {
        assert(all[l.len() + i] == r[i]);
    }
}

proof fn lemma_one_atom(plan: Plan)
    requires
        is_atom(plan),
    ensures
        deduplicated(join_factors(plan)) == leaves(plan),
{
    let all = join_factors(plan);
    assert(all.drop_last() =~= seq![]);
    assert(deduplicated(all.drop_last()) =~= seq![]);
    assert(deduplicated(all) =~= seq![plan]);
}

/// What a reordered join of atoms joins.
proof fn lemma_reorder_leaves(plan: Plan, types: Types, limits: Limits)
    requires
        all_atoms(join_factors(plan)),
    ensures
        same(leaves(reorder(plan, types, limits)), deduplicated(join_factors(plan))),
    decreases plan, 0nat,
{
    let all = join_factors(plan);
    lemma_reorder_unfolds(plan, types, limits);
    if let Plan::Join { left, right, .. } = plan {
        let rec = reorder_below(plan, limits);
        let (l, r) = (join_factors(*left), join_factors(*right));
        lemma_keeps_atoms(plan, limits);
        lemma_atoms_split(l, r);
        lemma_part_joins(*left, plan, types, limits);
        lemma_part_joins(*right, plan, types, limits);
        lemma_join_leaves(*left, *right, types, limits, rec);
    } else {
        assert(all[0] == plan);
        lemma_one_atom(plan);
    }
}

/// What joins atoms is no union.
proof fn lemma_joins_atoms(new: Plan, factors: Seq<Plan>)
    requires
        all_atoms(factors),
        same(leaves(new), deduplicated(factors)),
    ensures
        new !is Union,
{
    let distinct = deduplicated(factors);
    lemma_distinct_atoms(factors);
    lemma_same_items(leaves(new), distinct);
    if new is Union {
        assert(leaves(new)[0] == new);
        assert(leaves(new).contains(new));
        assert(distinct.contains(new));
        assert(is_atom(new));
    }
}

proof fn lemma_nest_of_atoms(plan: Plan)
    requires
        all_atoms(join_factors(plan)),
    ensures
        plan !is Union,
{
    if plan is Union {
        assert(is_atom(join_factors(plan)[0]));
    }
}

proof fn lemma_below(part: Plan, plan: Plan, types: Types, limits: Limits)
    ensures
        reorder_below(plan, limits)(part, types) == part || reorder_below(plan, limits)(part, types)
            == reorder(part, types, limits),
{
}

/// A part that joins atoms does not become a union.
proof fn lemma_part_joins(part: Plan, plan: Plan, types: Types, limits: Limits)
    requires
        all_atoms(join_factors(part)),
    ensures
        reorder_below(plan, limits)(part, types) !is Union,
    decreases part, 1nat,
{
    lemma_nest_of_atoms(part);
    lemma_reorder_leaves(part, types, limits);
    lemma_joins_atoms(reorder(part, types, limits), join_factors(part));
    lemma_below(part, plan, types, limits);
}

/// The same bag, as a set and without duplicates.
proof fn lemma_as_set(new: Seq<Plan>, distinct: Seq<Plan>)
    requires
        same(new, distinct),
        distinct.no_duplicates(),
    ensures
        new.no_duplicates(),
        new.to_set() == distinct.to_set(),
{
    lemma_same_items(new, distinct);
    distinct.lemma_multiset_has_no_duplicates();
    new.lemma_multiset_has_no_duplicates_conv();
    assert(new.to_set() =~= distinct.to_set());
}

/// Reordering a join of atoms joins the distinct ones among them, each once.
pub proof fn law_atoms_once(plan: Plan, types: Types, limits: Limits)
    requires
        all_atoms(join_factors(plan)),
    ensures
        leaves(reorder(plan, types, limits)).no_duplicates(),
        leaves(reorder(plan, types, limits)).to_set() == join_factors(plan).to_set(),
{
    let all = join_factors(plan);
    lemma_reorder_leaves(plan, types, limits);
    lemma_distinct_atoms(all);
    lemma_as_set(leaves(reorder(plan, types, limits)), deduplicated(all));
}

} // verus!
