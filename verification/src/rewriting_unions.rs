//! Rewriting of joins with unions keeps the solutions and the scopes.

use vstd::prelude::*;

use crate::algebra::Plan;
use crate::bags::{lemma_same_concat, lemma_same_items, lemma_same_swap, same};
use crate::builders::{is_empty_singleton, union_all};
use crate::factoring::{
    all_joined_scoped, any_binds, lemma_distribute_union, lemma_joined_tamed, lemma_names_concat,
    lemma_one,
};
use crate::factors::{joined, non_singletons};
use crate::joins::{eval_join, lemma_eval_join_extends, lemma_eval_join_one, lemma_eval_join_push};
use crate::lookups::{any_has_subclass_path, has_subclass_path, join_keys};
use crate::normalize_laws::placed;
use crate::plan_laws::{
    lemma_eval_concat, lemma_eval_one, lemma_join, lemma_singleton, lemma_union_all,
};
use crate::plan_taming::{
    has_source, is_branch, lemma_branch, lemma_empty_tamer, lemma_singleton_binds, lemma_tamer_self,
    lemma_union_drawn, lemma_union_tamer,
};
use crate::rewrites::{
    flagged, has_one_singleton, joined_with_each, singleton_others, split_with_chosen,
};
use crate::rewriting::{
    agrees, each_once, improves, lemma_improves_bag, lemma_improves_concat, lemma_improves_self,
    lemma_improves_trans, lemma_join_improves, lemma_joined_improves, lemma_joined_scoped_less,
    lemma_list_concat, lemma_list_trans, lemma_one_scoped, lemma_one_tamed, lemma_scoped_split,
    lemma_steady_concat, lemma_tamer_one, list_tamed,
};
use crate::scope::{all_bind, binds};
use crate::scoping::{
    all_paths, all_plain, all_scoped, all_steady, joined_paths, plain, plan_paths, scoped, steady,
    Names, Trace,
};
use crate::semantics::{eval, eval_all, regular, World};
use crate::solutions::{
    joined_bags, lemma_join_commutes, lemma_join_same, lemma_join_splits, lemma_join_unit, Solution,
};
use crate::taming::{lemma_tamer_trans, tamer};
use crate::type_inference::{distinct_variables, infer, Types};
use crate::variables::{plan_variables, plans_variables};

verus! {

/// The joined solutions of two plans.
pub proof fn lemma_eval_two(world: World, left: Plan, right: Plan, input: Solution)
    requires
        regular(world),
    ensures
        eval_join(world, seq![left, right], input) == joined_bags(
            eval(world, left, input),
            eval(world, right, input),
        ),
{
    assert(seq![left, right] =~= seq![left].push(right));
    lemma_eval_join_push(world, seq![left], right, input);
    lemma_eval_join_one(world, left, input);
}

/// A union of plans each of which is tamer than some joined plans.
pub proof fn lemma_union_tamed(plans: Seq<Plan>, factors: Seq<Plan>, threshold: nat)
    requires
        forall|i: int| 0 <= i < plans.len() ==> list_tamed(
            seq![#[trigger] plans[i]],
            factors,
            threshold,
        ),
    ensures
        list_tamed(seq![union_all(plans)], factors, threshold),
{
    if plans.len() == 0 {
        let whole = joined(factors);
        lemma_empty_tamer(union_all(plans), whole, threshold);
        lemma_tamer_one(union_all(plans), whole, threshold);
        lemma_one_tamed(union_all(plans), seq![whole], threshold);
        lemma_joined_tamed(factors, threshold);
        lemma_one_tamed(whole, factors, threshold);
        lemma_list_trans(seq![union_all(plans)], seq![whole], factors, threshold);
    } else {
        lemma_some_union_tamed(plans, factors, threshold);
    }
}

proof fn lemma_some_union_tamed(plans: Seq<Plan>, factors: Seq<Plan>, threshold: nat)
    requires
        plans.len() > 0,
        forall|i: int| 0 <= i < plans.len() ==> list_tamed(
            seq![#[trigger] plans[i]],
            factors,
            threshold,
        ),
    ensures
        list_tamed(seq![union_all(plans)], factors, threshold),
{
    let raw = Plan::Union { inner: plans };
    let new = union_all(plans);
    lemma_union_tamer(plans, threshold);
    lemma_tamer_one(new, raw, threshold);
    lemma_one_tamed(new, seq![raw], threshold);
    lemma_one(raw);
    let one = seq![raw];
    assert(list_tamed(one, factors, threshold)) by {
        assert forall|v: Seq<char>| #[trigger] plan_variables(raw).contains(v) implies
            plans_variables(factors).contains(v) by {
            assert(plans_variables(plans).contains(v));
            let i = choose|i: int|
                0 <= i < plans.len() && plan_variables(#[trigger] plans[i]).contains(v);
            lemma_one(plans[i]);
            assert(list_tamed(seq![plans[i]], factors, threshold));
        }
        assert forall|v: Seq<char>| #[trigger] any_binds(factors).contains(v) implies binds(
            raw,
        ).contains(v) by {
            assert forall|i: int| 0 <= i < plans.len() implies binds(
                #[trigger] plans[i],
            ).contains(v) by {
                lemma_one(plans[i]);
                assert(list_tamed(seq![plans[i]], factors, threshold));
            }
            assert(all_bind(plans).contains(v));
        }
        if has_subclass_path(raw) {
            assert(any_has_subclass_path(plans));
            let i = choose|i: int| 0 <= i < plans.len() && has_subclass_path(#[trigger] plans[i]);
            lemma_one(plans[i]);
            assert(list_tamed(seq![plans[i]], factors, threshold));
        }
        assert forall|p: (Trace, bool)| #[trigger] plan_paths(raw).contains(p) implies joined_paths(
            factors,
        ).contains(p) by {
            assert(all_paths(plans).contains(p));
            let i = choose|i: int|
                0 <= i < plans.len() && plan_paths(#[trigger] plans[i]).contains(p);
            lemma_one(plans[i]);
            assert(list_tamed(seq![plans[i]], factors, threshold));
        }
        if all_plain(factors) {
            assert forall|i: int| 0 <= i < plans.len() implies plain(#[trigger] plans[i]) by {
                lemma_one(plans[i]);
                assert(list_tamed(seq![plans[i]], factors, threshold));
            }
            assert(all_plain(plans));
            assert(plain(raw));
        }
        assert forall|late: Names, sure: Names| all_steady(factors, late, sure) implies
            #[trigger] all_steady(one, late, sure) by {
            assert forall|i: int| 0 <= i < plans.len() implies steady(
                #[trigger] plans[i],
                late,
                sure,
            ) by {
                lemma_one_tamed(plans[i], factors, threshold);
                assert(list_tamed(seq![plans[i]], factors, threshold));
            }
            assert(all_steady(plans, late, sure));
            assert(steady(raw, late, sure));
        }
        assert forall|sure: Names, outside: Names, late: Names|
            all_joined_scoped(
                factors,
                sure,
                outside,
                late,
                threshold,
            ) implies #[trigger] all_joined_scoped(
            one,
            sure,
            outside,
            late,
            threshold,
        ) by {
            assert forall|i: int| 0 <= i < plans.len() implies scoped(
                #[trigger] plans[i],
                sure,
                outside,
                late,
                threshold,
            ) by {
                lemma_one_tamed(plans[i], factors, threshold);
                assert(list_tamed(seq![plans[i]], factors, threshold));
            }
            assert(all_scoped(plans, sure, outside, late, threshold));
            assert(scoped(raw, sure, outside, late, threshold));
            lemma_one_scoped(raw, sure, outside, late, threshold);
        }
    }
    lemma_list_trans(seq![new], one, factors, threshold);
}

/// A plan joined with each branch stands for its join with the union.
pub proof fn lemma_distribute_improves(
    world: World,
    factor: Plan,
    branches: Seq<Plan>,
    types: Types,
    threshold: nat,
)
    requires
        regular(world),
    ensures
        improves(
            world,
            seq![union_all(joined_with_each(factor, branches, types))],
            seq![factor, (Plan::Union { inner: branches })],
            types,
            threshold,
        ),
{
    let union = Plan::Union { inner: branches };
    let all = joined_with_each(factor, branches, types);
    let new = union_all(all);
    let old = seq![factor, union];
    if distinct_variables(types) {
        assert forall|i: int| 0 <= i < all.len() implies list_tamed(
            seq![#[trigger] all[i]],
            old,
            threshold,
        ) by {
            let b = branches[i];
            let keys = join_keys(infer(factor, types), infer(b, types), types);
            lemma_join_improves(world, factor, b, keys, types, threshold);
            lemma_tamer_self(b, threshold);
            assert(is_branch(b, union, threshold));
            lemma_branch(b, union, threshold);
            lemma_tamer_one(b, union, threshold);
            lemma_one_tamed(b, seq![union], threshold);
            lemma_improves_self(world, seq![factor], types, threshold);
            lemma_list_concat(seq![factor], seq![factor], seq![b], seq![union], threshold);
            assert(seq![factor] + seq![b] =~= seq![factor, b]);
            assert(seq![factor] + seq![union] =~= old);
            lemma_list_trans(seq![all[i]], seq![factor, b], old, threshold);
        }
        lemma_union_tamed(all, old, threshold);
        assert forall|input: Solution, sure: Names, outside: Names, late: Names| #[trigger]
            agrees(world, seq![new], old, types, input, sure, outside, late, threshold) by {
            let f = eval(world, factor, input);
            assert forall|i: int| 0 <= i < branches.len() implies same(
                joined_bags(eval(world, #[trigger] branches[i], input), f),
                eval(world, all[i], input),
            ) by {
                let b = branches[i];
                let keys = join_keys(infer(factor, types), infer(b, types), types);
                lemma_join(world, factor, b, keys, input);
                lemma_join_commutes(f, eval(world, b, input));
            }
            lemma_distribute_union(world, branches, all, f, input);
            lemma_union_all(world, all, input);
            lemma_eval_join_one(world, new, input);
            lemma_eval_two(world, factor, union, input);
            lemma_join_commutes(f, eval(world, union, input));
        }
    }
}

/// Where no branch is one row without values, all of them are left.
proof fn lemma_all_others(branches: Seq<Plan>)
    requires
        non_singletons(branches).len() >= branches.len(),
    ensures
        non_singletons(branches) == branches,
    decreases branches.len(),
{
    reveal(Seq::filter);
    if branches.len() > 0 {
        let shorter = branches.drop_last();
        lemma_fewer_others(shorter);
        lemma_all_others(shorter);
        assert(branches =~= shorter.push(branches.last()));
    }
}

proof fn lemma_fewer_others(branches: Seq<Plan>)
    ensures
        non_singletons(branches).len() <= branches.len(),
        forall|k: int|
            0 <= k < non_singletons(branches).len() ==> branches.contains(
                #[trigger] non_singletons(branches)[k],
            ),
    decreases branches.len(),
{
    reveal(Seq::filter);
    if branches.len() > 0 {
        let shorter = branches.drop_last();
        lemma_fewer_others(shorter);
        let others = non_singletons(branches);
        let before = non_singletons(shorter);
        assert forall|k: int| 0 <= k < others.len() implies branches.contains(
            #[trigger] others[k],
        ) by {
            if k < before.len() {
                assert(shorter.contains(before[k]));
                let i = choose|i: int| 0 <= i < shorter.len() && shorter[i] == before[k];
                assert(branches[i] == others[k]);
            } else {
                assert(branches[branches.len() - 1] == others[k]);
            }
        }
    }
}

/// The branches other than the one that is one row without values.
proof fn lemma_others_eval(world: World, branches: Seq<Plan>, input: Solution)
    requires
        non_singletons(branches).len() + 1 == branches.len(),
    ensures
        same(
            eval_all(world, branches, input),
            seq![input] + eval_all(world, non_singletons(branches), input),
        ),
        exists|i: int| 0 <= i < branches.len() && is_empty_singleton(#[trigger] branches[i]),
    decreases branches.len(),
{
    reveal(Seq::filter);
    let shorter = branches.drop_last();
    let last = branches.last();
    let others = non_singletons(branches);
    lemma_fewer_others(shorter);
    if is_empty_singleton(last) {
        lemma_all_others(shorter);
        assert(others == shorter);
        lemma_singleton(world, last, input);
        lemma_same_swap(eval_all(world, shorter, input), seq![input]);
        assert(is_empty_singleton(branches[branches.len() - 1]));
    } else {
        lemma_others_eval(world, shorter, input);
        let before = non_singletons(shorter);
        assert(others == before.push(last));
        assert(before.push(last).drop_last() =~= before);
        let (a, b, c) = (
            eval_all(world, shorter, input),
            eval_all(world, before, input),
            eval(world, last, input),
        );
        lemma_same_concat(a, c, seq![input] + b, c);
        assert((seq![input] + b) + c =~= seq![input] + (b + c));
        let i = choose|i: int|
            0 <= i < shorter.len() && is_empty_singleton(#[trigger] shorter[i]);
        assert(is_empty_singleton(branches[i]));
    }
}

/// A union with one row without values as a branch.
pub proof fn lemma_singleton_union(union: Plan, threshold: nat)
    requires
        has_one_singleton(union),
    ensures
        binds(union) == Set::<Seq<char>>::empty(),
        tamer(union_all(singleton_others(union)), union, threshold),
{
    if let Plan::Union { inner } = union {
        let others = non_singletons(inner);
        lemma_others_eval(arbitrary(), inner, arbitrary());
        let i = choose|i: int| 0 <= i < inner.len() && is_empty_singleton(#[trigger] inner[i]);
        lemma_singleton_binds(inner[i]);
        assert forall|v: Seq<char>| !binds(union).contains(v) by {
            if binds(union).contains(v) {
                assert(all_bind(inner).contains(v));
                assert(binds(inner[i]).contains(v));
            }
        }
        assert(binds(union) =~= Set::<Seq<char>>::empty());
        lemma_fewer_others(inner);
        assert forall|k: int| 0 <= k < others.len() implies has_source(
            #[trigger] others[k],
            inner,
            threshold,
        ) by {
            assert(inner.contains(others[k]));
            let j = choose|j: int| 0 <= j < inner.len() && inner[j] == others[k];
            lemma_tamer_self(others[k], threshold);
            assert(is_branch(others[k], inner[j], threshold));
        }
        if others.len() == 0 {
            lemma_empty_tamer(union_all(others), union, threshold);
        } else {
            lemma_union_drawn(others, inner, threshold);
            lemma_union_tamer(others, threshold);
            lemma_tamer_trans(union_all(others), (Plan::Union { inner: others }), union, threshold);
        }
    }
}

/// Such a union gives back its input.
pub proof fn lemma_singleton_contains(world: World, union: Plan, input: Solution)
    requires
        has_one_singleton(union),
    ensures
        eval(world, union, input).contains(input),
{
    if let Plan::Union { inner } = union {
        lemma_others_eval(world, inner, input);
        let all = seq![input] + eval_all(world, non_singletons(inner), input);
        lemma_same_items(eval(world, union, input), all);
        assert(all[0] == input);
        assert(all.contains(input));
    }
}

/// Dropping a joined plan that binds nothing.
proof fn lemma_drop_tamed(base: Seq<Plan>, plan: Plan, threshold: nat)
    requires
        binds(plan) == Set::<Seq<char>>::empty(),
    ensures
        list_tamed(base, base.push(plan), threshold),
{
    let all = base.push(plan);
    assert(all =~= base + seq![plan]);
    lemma_names_concat(base, seq![plan]);
    lemma_one(plan);
    assert forall|late: Names, sure: Names| all_steady(all, late, sure) implies
        #[trigger] all_steady(base, late, sure) by {
        lemma_steady_concat(base, seq![plan], late, sure, threshold);
    }
    assert forall|sure: Names, outside: Names, late: Names|
        all_joined_scoped(all, sure, outside, late, threshold) implies #[trigger] all_joined_scoped(
        base,
        sure,
        outside,
        late,
        threshold,
    ) by {
        lemma_scoped_split(base, seq![plan], sure, outside, late, threshold);
        lemma_joined_scoped_less(
            base,
            sure,
            outside,
            late.union(plans_variables(seq![plan])),
            late,
            threshold,
        );
    }
}

/// Joined plans beside a union that has one row without values as a branch: what
/// stands for the plans alone, and what stands for them joined with the other
/// branches.
pub proof fn lemma_split_improves(
    world: World,
    base: Seq<Plan>,
    union: Plan,
    alone: Plan,
    together: Plan,
    types: Types,
    threshold: nat,
)
    requires
        regular(world),
        has_one_singleton(union),
        improves(world, seq![alone], base, types, threshold),
        improves(
            world,
            seq![together],
            base.push(union_all(singleton_others(union))),
            types,
            threshold,
        ),
    ensures
        improves(world, seq![union_all(seq![alone, together])], base.push(union), types, threshold),
        singleton_others(union).len() == 0 ==> improves(
            world,
            seq![alone],
            base.push(union),
            types,
            threshold,
        ),
{
    let others = union_all(singleton_others(union));
    let (old, less) = (base.push(union), base.push(others));
    let both = seq![alone, together];
    let new = union_all(both);
    lemma_singleton_union(union, threshold);
    if distinct_variables(types) {
        lemma_drop_tamed(base, union, threshold);
        lemma_list_trans(seq![alone], base, old, threshold);
        lemma_tamer_one(others, union, threshold);
        lemma_one_tamed(others, seq![union], threshold);
        lemma_improves_self(world, base, types, threshold);
        lemma_list_concat(base, base, seq![others], seq![union], threshold);
        assert(base + seq![others] =~= less);
        assert(base + seq![union] =~= old);
        lemma_list_trans(seq![together], less, old, threshold);
        assert forall|i: int| 0 <= i < both.len() implies list_tamed(
            seq![#[trigger] both[i]],
            old,
            threshold,
        ) by {
            assert(both[i] == alone || both[i] == together);
        }
        lemma_union_tamed(both, old, threshold);
        assert forall|input: Solution, sure: Names, outside: Names, late: Names| #[trigger]
            agrees(world, seq![new], old, types, input, sure, outside, late, threshold) by {
            lemma_split_agrees(
                world,
                base,
                union,
                alone,
                together,
                types,
                input,
                sure,
                outside,
                late,
                threshold,
            );
        }
        if singleton_others(union).len() == 0 {
            assert forall|input: Solution, sure: Names, outside: Names, late: Names| #[trigger]
                agrees(world, seq![alone], old, types, input, sure, outside, late, threshold) by {
                lemma_split_agrees(
                    world,
                    base,
                    union,
                    alone,
                    together,
                    types,
                    input,
                    sure,
                    outside,
                    late,
                    threshold,
                );
            }
        }
    }
}

proof fn lemma_split_agrees(
    world: World,
    base: Seq<Plan>,
    union: Plan,
    alone: Plan,
    together: Plan,
    types: Types,
    input: Solution,
    sure: Names,
    outside: Names,
    late: Names,
    threshold: nat,
)
    requires
        regular(world),
        has_one_singleton(union),
        distinct_variables(types),
        improves(world, seq![alone], base, types, threshold),
        improves(
            world,
            seq![together],
            base.push(union_all(singleton_others(union))),
            types,
            threshold,
        ),
        list_tamed(base, base.push(union), threshold),
        list_tamed(base.push(union_all(singleton_others(union))), base.push(union), threshold),
    ensures
        agrees(
            world,
            seq![union_all(seq![alone, together])],
            base.push(union),
            types,
            input,
            sure,
            outside,
            late,
            threshold,
        ),
        singleton_others(union).len() == 0 ==> agrees(
            world,
            seq![alone],
            base.push(union),
            types,
            input,
            sure,
            outside,
            late,
            threshold,
        ),
{
    let less = base.push(union_all(singleton_others(union)));
    if each_once(world, joined_paths(base.push(union))) && placed(input, types, outside)
        && sure.subset_of(input.dom()) && all_joined_scoped(
        base.push(union),
        sure,
        outside,
        late,
        threshold,
    ) {
        assert(each_once(world, joined_paths(base)));
        assert(each_once(world, joined_paths(less)));
        assert(all_joined_scoped(base, sure, outside, late, threshold));
        assert(all_joined_scoped(less, sure, outside, late, threshold));
        assert(agrees(world, seq![alone], base, types, input, sure, outside, late, threshold));
        assert(agrees(world, seq![together], less, types, input, sure, outside, late, threshold));
        lemma_split_eval(world, base, union, alone, together, input);
    }
}

proof fn lemma_split_eval(
    world: World,
    base: Seq<Plan>,
    union: Plan,
    alone: Plan,
    together: Plan,
    input: Solution,
)
    requires
        regular(world),
        has_one_singleton(union),
        same(eval_join(world, seq![alone], input), eval_join(world, base, input)),
        same(
            eval_join(world, seq![together], input),
            eval_join(world, base.push(union_all(singleton_others(union))), input),
        ),
    ensures
        same(
            eval_join(world, seq![union_all(seq![alone, together])], input),
            eval_join(world, base.push(union), input),
        ),
        singleton_others(union).len() == 0 ==> same(
            eval_join(world, seq![alone], input),
            eval_join(world, base.push(union), input),
        ),
{
    let rest = singleton_others(union);
    let both = seq![alone, together];
    let b = eval_join(world, base, input);
    let u = eval(world, union, input);
    let o = eval_all(world, rest, input);
    lemma_eval_join_push(world, base, union, input);
    lemma_eval_join_push(world, base, union_all(rest), input);
    lemma_union_all(world, rest, input);
    lemma_union_all(world, both, input);
    lemma_eval_join_one(world, union_all(both), input);
    lemma_eval_join_one(world, alone, input);
    lemma_eval_join_one(world, together, input);
    if let Plan::Union { inner } = union {
        lemma_others_eval(world, inner, input);
    }
    lemma_join_same(b, u, b, seq![input] + o);
    lemma_join_splits(b, seq![input], o);
    lemma_eval_join_extends(world, base, input);
    lemma_join_unit(input, b);
    lemma_same_concat(
        joined_bags(b, seq![input]),
        joined_bags(b, o),
        b,
        joined_bags(b, o),
    );
    assert(same(joined_bags(b, u), b + joined_bags(b, o)));
    assert(seq![alone] + seq![together] =~= both);
    lemma_eval_concat(world, seq![alone], seq![together], input);
    lemma_eval_one(world, alone, input);
    lemma_eval_one(world, together, input);
    lemma_same_concat(
        eval(world, alone, input),
        eval(world, together, input),
        b,
        joined_bags(b, o),
    );
    if rest.len() == 0 {
        assert(o =~= seq![]);
        assert(seq![input] + o =~= seq![input]);
    }
}

/// Plans divided by a flag are the plans in another order.
pub proof fn lemma_flagged_bag(plans: Seq<Plan>, flags: Seq<bool>)
    ensures
        same(flagged(plans, flags, false) + flagged(plans, flags, true), plans),
    decreases plans.len(),
{
    if plans.len() > 0 {
        let shorter = plans.drop_last();
        let one = seq![plans.last()];
        lemma_flagged_bag(shorter, flags);
        let (a, b) = (flagged(shorter, flags, false), flagged(shorter, flags, true));
        lemma_same_concat(a + b, one, shorter, one);
        assert(shorter + one =~= plans);
        if flags[plans.len() - 1] {
            assert(a + b.push(plans.last()) =~= (a + b) + one);
        } else {
            assert(a.push(plans.last()) + b =~= a + (one + b));
            lemma_same_swap(one, b);
            lemma_same_concat(a, one + b, a, b + one);
            assert(a + (b + one) =~= (a + b) + one);
        }
    } else {
        assert(flagged(plans, flags, false) + flagged(plans, flags, true) =~= plans);
    }
}

/// The factors that share a variable with the other branches are evaluated
/// twice, the others once.
pub proof fn lemma_chosen_improves(
    world: World,
    factors: Seq<Plan>,
    chosen: Seq<bool>,
    union: Plan,
    types: Types,
    threshold: nat,
)
    requires
        regular(world),
        has_one_singleton(union),
    ensures
        improves(
            world,
            seq![split_with_chosen(factors, chosen, union_all(singleton_others(union)))],
            factors.push(union),
            types,
            threshold,
        ),
{
    let right = union_all(singleton_others(union));
    let twice = flagged(factors, chosen, true);
    let once = flagged(factors, chosen, false);
    let (alone, together) = (joined(twice), joined(twice.push(right)));
    let both = union_all(seq![alone, together]);
    lemma_joined_improves(world, twice, types, threshold);
    lemma_joined_improves(world, twice.push(right), types, threshold);
    lemma_split_improves(world, twice, union, alone, together, types, threshold);
    lemma_improves_self(world, once, types, threshold);
    lemma_improves_concat(world, once, once, seq![both], twice.push(union), types, threshold);
    let old = factors.push(union);
    let parts = once + twice.push(union);
    lemma_flagged_bag(factors, chosen);
    lemma_same_concat(once + twice, seq![union], factors, seq![union]);
    assert((once + twice) + seq![union] =~= parts);
    assert(factors + seq![union] =~= old);
    lemma_improves_bag(world, parts, old, types, threshold);
    assert(once + seq![both] =~= once.push(both));
    lemma_improves_trans(world, once.push(both), parts, old, types, threshold);
    if once.len() == 0 {
        assert(once.push(both) =~= seq![both]);
    } else {
        lemma_joined_improves(world, once.push(both), types, threshold);
        lemma_improves_trans(
            world,
            seq![joined(once.push(both))],
            once.push(both),
            old,
            types,
            threshold,
        );
    }
}

} // verus!
