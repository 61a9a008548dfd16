//! Reordering does not change the solutions.

use vstd::prelude::*;

use crate::algebra::{is_atom, Expr, Plan};
use crate::bags::{
    gather, lemma_gather_concat, lemma_gather_order, lemma_gather_single, lemma_same_concat,
    lemma_same_swap, same,
};
use crate::builders::{filter, is_empty_singleton, join, union_all};
use crate::eval_basics::{lemma_contains_index, lemma_eval_within, within};
use crate::factoring::{
    all_joined_scoped, any_binds, lemma_distribute_union, lemma_names_concat, lemma_one, tamed,
};
use crate::factors::{join_factors, joined};
use crate::greedy::{greatest, lemma_greatest};
use crate::joins::{eval_join, lemma_eval_join_one, lemma_eval_join_push, lemma_eval_join_remove};
use crate::limits::Limits;
use crate::lookups::{
    any_expr_has_subclass_path, any_has_highly_correlated, any_has_subclass_path,
    correlation_threshold, expr_has_subclass_path, has_highly_correlated, has_subclass_path,
    join_keys,
};
use crate::loops::{lemma_joined_again, lemma_joined_one};
use crate::ordering_laws::{good, lemma_greedy_improves};
use crate::plan_laws::{
    lemma_eval_extends, lemma_filter, lemma_gather_items, lemma_join, lemma_singleton,
    lemma_union_all,
};
use crate::plan_taming::{
    has_source, is_branch, lemma_empty_tamer, lemma_filter_tamer, lemma_singleton_binds,
    lemma_tamer_self, lemma_union_drawn, lemma_union_tamer,
};
use crate::reorder::{
    deduplicated, reorder_each, reorder_factors, reorder_join, reordered_factors, without_singleton,
    Reordering,
};
use crate::rewrites::{
    condition_of, correlated_branches, cover, distribute_either, distribute_flat,
    distribution_ranks, filter_instead_of_either, filter_instead_of_join, filtered_by_each,
    first_singleton_union, first_taking_union, has_one_singleton, is_correlated_branch,
    joined_with_each, keyed_join, lemma_first_where, none_chosen, other_branches, singleton_others,
    split_guarded, split_off_singleton, takes_factor, union_branches, without_two,
};
use crate::rewriting::{
    agrees, better, each_once, improves, lemma_better_one, lemma_improves_bag,
    lemma_improves_concat, lemma_improves_each, lemma_improves_self, lemma_improves_trans,
    lemma_join_improves, lemma_joined_improves, lemma_joined_scoped_less, lemma_list_concat,
    lemma_list_trans, lemma_nest_improves, lemma_one_scoped, lemma_one_tamed, lemma_scoped_split,
    lemma_steady_concat, lemma_tamer_one, lemma_unfold, list_tamed,
};
use crate::rewriting_unions::{
    lemma_chosen_improves, lemma_distribute_improves, lemma_eval_two, lemma_split_improves,
    lemma_union_tamed,
};
use crate::scope::{all_bind, binds};
use crate::scoping::{
    all_paths, all_plain, all_scoped, all_steady, expr_paths, joined_paths, lemma_covers_more,
    lemma_exists_covered_more, lemma_plain_expr_scoped, lemma_scoped_expr_more, lemma_scoped_more,
    meets, plain, plan_paths, scoped, steady, Names, Trace,
};
use crate::semantics::{condition, eval, eval_all, regular, World};
use crate::solutions::{
    compatible, extends, joined_bags, joined_with, lemma_extends_merge, lemma_join_assoc,
    lemma_join_commutes, lemma_join_nothing, lemma_join_same, lemma_join_splits,
    lemma_joined_with_contains, lemma_merge_extends, merge, merged, Solution,
};
use crate::taming::{lemma_tamer_trans, tamer};
use crate::type_inference::{distinct_variables, infer, Types};
use crate::variables::{expr_variables, plan_variables, plans_variables};

verus! {

/// Where only one item gives something.
proof fn lemma_gather_one<A, B>(items: Seq<A>, f: spec_fn(A) -> Seq<B>, k: int)
    requires
        0 <= k < items.len(),
        forall|i: int|
            0 <= i < items.len() && i != k ==> f(#[trigger] items[i]) == Seq::<B>::empty(),
    ensures
        gather(items, f) == f(items[k]),
    decreases items.len(),
{
    let shorter = items.drop_last();
    let n = items.len() - 1;
    if k == n {
        assert forall|i: int| 0 <= i < shorter.len() implies f(#[trigger] shorter[i]) == Seq::<
            B,
        >::empty() by {
            assert(f(items[i]) == Seq::<B>::empty());
        }
        lemma_gather_nothing(shorter, f);
        assert(gather(shorter, f) + f(items[n]) =~= f(items[n]));
    } else {
        assert forall|i: int| 0 <= i < shorter.len() && i != k implies f(#[trigger] shorter[i])
            == Seq::<B>::empty() by {
            assert(f(items[i]) == Seq::<B>::empty());
        }
        lemma_gather_one(shorter, f, k);
        assert(f(items[n]) == Seq::<B>::empty());
        assert(gather(shorter, f) + f(items[n]) =~= gather(shorter, f));
    }
}

proof fn lemma_gather_nothing<A, B>(items: Seq<A>, f: spec_fn(A) -> Seq<B>)
    requires
        forall|i: int| 0 <= i < items.len() ==> f(#[trigger] items[i]) == Seq::<B>::empty(),
    ensures
        gather(items, f) == Seq::<B>::empty(),
    decreases items.len(),
{
    if items.len() > 0 {
        let shorter = items.drop_last();
        assert forall|i: int| 0 <= i < shorter.len() implies f(#[trigger] shorter[i]) == Seq::<
            B,
        >::empty() by {
            assert(f(items[i]) == Seq::<B>::empty());
        }
        lemma_gather_nothing(shorter, f);
        assert(f(items[items.len() - 1]) == Seq::<B>::empty());
    }
}

/// A lookup whose matches are there once, joined with itself.
proof fn lemma_atom_twice(world: World, plan: Plan, input: Solution)
    requires
        regular(world),
        is_atom(plan),
        (world.atom)(plan).no_duplicates(),
    ensures
        joined_bags(eval(world, plan, input), eval(world, plan, input)) == eval(
            world,
            plan,
            input,
        ),
{
    let g = (world.atom)(plan);
    let a = eval(world, plan, input);
    assert(a == joined_with(input, g));
    let f = |x: Solution| joined_with(x, a);
    lemma_eval_extends(world, plan, input);
    assert forall|i: int| 0 <= i < a.len() implies f(#[trigger] a[i]) == seq![a[i]] by {
        let x = a[i];
        assert(extends(x, input));
        lemma_joined_again(x, input, g);
        lemma_contains_index(a, i);
        lemma_joined_with_contains(input, g, x);
        let k = choose|k: int|
            0 <= k < g.len() && compatible(input, #[trigger] g[k]) && x == merge(input, g[k]);
        let h = |other: Solution| merged(x, other);
        lemma_merge_extends(input, g[k]);
        lemma_extends_merge(x, g[k]);
        assert(g[k].dom() == plan_variables(plan));
        assert forall|j: int| 0 <= j < g.len() && j != k implies h(#[trigger] g[j]) == Seq::<
            Solution,
        >::empty() by {
            assert(g[j].dom() == plan_variables(plan));
            if compatible(x, g[j]) {
                assert forall|v: Seq<char>| g[j].dom().contains(v) implies g[j][v] == g[k][v] by {
                    assert(x.dom().contains(v));
                    assert(x[v] == g[j][v]);
                    assert(x[v] == g[k][v]);
                }
                assert(g[j] =~= g[k]);
            }
        }
        lemma_gather_one(g, h, k);
        assert(h(g[k]) == seq![x]);
        assert(joined_with(x, g) == gather(g, h));
    }
    lemma_gather_items(a, f);
}

/// Joined plans with an atom again.
proof fn lemma_again_improves(
    world: World,
    plans: Seq<Plan>,
    plan: Plan,
    types: Types,
    threshold: nat,
)
    requires
        regular(world),
        is_atom(plan),
        plans.contains(plan),
    ensures
        improves(world, plans, plans.push(plan), types, threshold),
{
    let old = plans.push(plan);
    let j = choose|j: int| 0 <= j < plans.len() && plans[j] == plan;
    assert(old =~= plans + seq![plan]);
    lemma_names_concat(plans, seq![plan]);
    lemma_one(plan);
    assert(list_tamed(plans, old, threshold)) by {
        assert forall|v: Seq<char>| #[trigger]
            any_binds(old).contains(v) implies any_binds(
            plans,
        ).contains(v) by {
            if binds(plan).contains(v) {
                assert(binds(plans[j]).contains(v));
            }
        }
        assert forall|late: Names, sure: Names| all_steady(old, late, sure) implies
            #[trigger] all_steady(plans, late, sure) by {
            lemma_steady_concat(plans, seq![plan], late, sure, threshold);
        }
        assert forall|sure: Names, outside: Names, late: Names|
            all_joined_scoped(
                old,
                sure,
                outside,
                late,
                threshold,
            ) implies #[trigger] all_joined_scoped(
            plans,
            sure,
            outside,
            late,
            threshold,
        ) by {
            lemma_scoped_split(plans, seq![plan], sure, outside, late, threshold);
            lemma_joined_scoped_less(
                plans,
                sure,
                outside,
                late.union(plans_variables(seq![plan])),
                late,
                threshold,
            );
        }
    }
    assert forall|input: Solution, sure: Names, outside: Names, late: Names| #[trigger]
        agrees(world, plans, old, types, input, sure, outside, late, threshold) by {
        if each_once(world, joined_paths(old)) {
            if plan is Path {
                let n = plans.len() as int;
                assert(plan_paths(plan).contains((Trace::Path(plan), false)));
                assert(old[j] == plan && old[n] == plan);
                assert(meets(old, Trace::Path(plan)));
                assert(joined_paths(old).contains((Trace::Path(plan), true)));
            }
            lemma_atom_twice(world, plan, input);
            let a = eval(world, plan, input);
            let rest = eval_join(world, plans.remove(j), input);
            let all = eval_join(world, plans, input);
            lemma_eval_join_remove(world, plans, j, input);
            lemma_eval_join_push(world, plans, plan, input);
            lemma_join_same(all, a, joined_bags(rest, a), a);
            lemma_join_assoc(rest, a, a);
        }
    }
}

/// Dropping atoms that occur again.
pub proof fn lemma_dedup_improves(world: World, plans: Seq<Plan>, types: Types, threshold: nat)
    requires
        regular(world),
    ensures
        improves(world, deduplicated(plans), plans, types, threshold),
    decreases plans.len(),
{
    if plans.len() == 0 {
        assert(deduplicated(plans) =~= plans);
        lemma_improves_self(world, plans, types, threshold);
    } else {
        let shorter = plans.drop_last();
        let last = plans.last();
        let before = deduplicated(shorter);
        lemma_dedup_improves(world, shorter, types, threshold);
        lemma_improves_self(world, seq![last], types, threshold);
        lemma_improves_concat(world, before, shorter, seq![last], seq![last], types, threshold);
        assert(before + seq![last] =~= before.push(last));
        assert(shorter + seq![last] =~= plans);
        if is_atom(last) && before.contains(last) {
            lemma_again_improves(world, before, last, types, threshold);
            lemma_improves_trans(world, before, before.push(last), plans, types, threshold);
        }
    }
}

/// The factors of two joined plans, each reordered, without duplicates.
pub proof fn lemma_reordered_improves(
    world: World,
    left: Plan,
    right: Plan,
    types: Types,
    rec: Reordering,
    threshold: nat,
)
    requires
        regular(world),
        good(world, rec, threshold),
    ensures
        improves(
            world,
            reordered_factors(left, right, types, rec),
            seq![left, right],
            types,
            threshold,
        ),
{
    let fs = join_factors(left) + join_factors(right);
    let new = reorder_each(fs, types, rec);
    assert forall|i: int| 0 <= i < new.len() implies better(
        world,
        #[trigger] new[i],
        fs[i],
        types,
        threshold,
    ) by {
        assert(new[i] == rec(fs[i], types));
    }
    lemma_improves_each(world, new, fs, types, threshold);
    lemma_dedup_improves(world, new, types, threshold);
    lemma_improves_trans(world, deduplicated(new), new, fs, types, threshold);
    lemma_unfold(world, left, right, types, threshold);
    lemma_improves_trans(world, deduplicated(new), fs, seq![left, right], types, threshold);
}

/// A reordered plan in place of some joined plans.
proof fn lemma_rec_improves(
    world: World,
    plan: Plan,
    factors: Seq<Plan>,
    types: Types,
    rec: Reordering,
    threshold: nat,
)
    requires
        regular(world),
        good(world, rec, threshold),
        improves(world, seq![plan], factors, types, threshold),
    ensures
        improves(world, seq![rec(plan, types)], factors, types, threshold),
{
    assert(better(world, rec(plan, types), plan, types, threshold));
    lemma_better_one(world, rec(plan, types), plan, types, threshold);
    lemma_improves_trans(world, seq![rec(plan, types)], seq![plan], factors, types, threshold);
}

proof fn lemma_split_guarded_improves(
    world: World,
    factors: Seq<Plan>,
    union: Plan,
    types: Types,
    limits: Limits,
)
    requires
        regular(world),
        has_one_singleton(union),
    ensures
        match split_guarded(factors, singleton_others(union), types, limits) {
            Some(plan) => improves(world, seq![plan], factors.push(union), types, correlation_threshold(limits)),
            None => true,
        },
{
    if let Some(plan) = split_guarded(factors, singleton_others(union), types, limits) {
        let right = union_all(singleton_others(union));
        let keys = join_keys(
            infer(joined(factors), types),
            infer(right, types),
            types,
        );
        let chosen = cover(
            factors,
            keys,
            none_chosen(factors.len()),
            types,
            limits,
            factors.len(),
        ).unwrap();
        lemma_chosen_improves(world, factors, chosen, union, types, correlation_threshold(limits));
    }
}

/// Several joined plans, one of which is a union with one row without values.
pub proof fn lemma_without_singleton_improves(
    world: World,
    factors: Seq<Plan>,
    index: int,
    types: Types,
    limits: Limits,
    rec: Reordering,
)
    requires
        regular(world),
        good(world, rec, correlation_threshold(limits)),
        0 <= index < factors.len(),
        has_one_singleton(factors[index]),
    ensures
        improves(
            world,
            seq![without_singleton(factors, index, types, limits, rec)],
            factors,
            types,
            correlation_threshold(limits),
        ),
{
    let union = factors[index];
    let others = singleton_others(union);
    let base = factors.remove(index);
    let base_join = rec(joined(base), types);
    let more = base.push(union_all(others));
    let new = without_singleton(factors, index, types, limits, rec);
    lemma_joined_improves(world, base, types, correlation_threshold(limits));
    lemma_rec_improves(world, joined(base), base, types, rec, correlation_threshold(limits));
    lemma_joined_improves(world, more, types, correlation_threshold(limits));
    lemma_rec_improves(world, joined(more), more, types, rec, correlation_threshold(limits));
    lemma_split_improves(world, base, union, base_join, rec(joined(more), types), types, correlation_threshold(limits));
    lemma_split_guarded_improves(world, base, union, types, limits);
    let fs = join_factors(base_join);
    lemma_split_guarded_improves(world, fs, union, types, limits);
    lemma_nest_improves(world, base_join, types, correlation_threshold(limits));
    lemma_improves_trans(world, fs, seq![base_join], base, types, correlation_threshold(limits));
    lemma_improves_self(world, seq![union], types, correlation_threshold(limits));
    lemma_improves_concat(world, fs, base, seq![union], seq![union], types, correlation_threshold(limits));
    assert(fs + seq![union] =~= fs.push(union));
    assert(base + seq![union] =~= base.push(union));
    if let Some(plan) = split_guarded(fs, others, types, limits) {
        lemma_improves_trans(world, seq![plan], fs.push(union), base.push(union), types, correlation_threshold(limits));
    }
    assert(improves(world, seq![new], base.push(union), types, correlation_threshold(limits)));
    lemma_removed_bag(factors, index);
    lemma_improves_bag(world, base.push(union), factors, types, correlation_threshold(limits));
    lemma_improves_trans(world, seq![new], base.push(union), factors, types, correlation_threshold(limits));
}

proof fn lemma_removed_bag(factors: Seq<Plan>, index: int)
    requires
        0 <= index < factors.len(),
    ensures
        same(factors.remove(index).push(factors[index]), factors),
{
    broadcast use vstd::seq_lib::group_to_multiset_ensures;

    let rest = factors.remove(index);
    assert(rest.push(factors[index]).to_multiset() =~= factors.to_multiset());
}

/// Two of some plans, behind the others.
proof fn lemma_two_last(factors: Seq<Plan>, first: int, second: int)
    requires
        0 <= first < factors.len(),
        0 <= second < factors.len(),
        first != second,
    ensures
        same(
            without_two(factors, first, second) + seq![factors[second], factors[first]],
            factors,
        ),
{
    broadcast use vstd::seq_lib::group_to_multiset_ensures;

    let (low, high) = if first < second {
        (first, second)
    } else {
        (second, first)
    };
    let middle = factors.remove(high);
    let rest = middle.remove(low);
    assert(middle[low] == factors[low]);
    let (x, y) = (factors[second], factors[first]);
    assert(rest + seq![x, y] =~= rest.push(x).push(y));
    assert(rest.push(x).push(y).to_multiset() =~= factors.to_multiset());
}

/// The best factor copied into the branches of the first union that takes one.
proof fn lemma_distribute_flat_improves(
    world: World,
    factors: Seq<Plan>,
    types: Types,
    limits: Limits,
)
    requires
        regular(world),
    ensures
        match distribute_flat(factors, types, limits) {
            Some(plan) => improves(world, seq![plan], factors, types, correlation_threshold(limits)),
            None => true,
        },
{
    if let Some(plan) = distribute_flat(factors, types, limits) {
        let u = first_taking_union(factors, types, limits).unwrap();
        lemma_first_where(factors, |factor: Plan| takes_factor(factor, types, limits));
        let ranks = distribution_ranks(factors, u, types, limits);
        let f = greatest(ranks).unwrap();
        lemma_greatest(ranks);
        let (factor, union) = (factors[f], factors[u]);
        let rest = without_two(factors, u, f);
        let copied = union_all(joined_with_each(factor, union_branches(union), types));
        assert(union == Plan::Union { inner: union_branches(union) });
        lemma_distribute_improves(world, factor, union_branches(union), types, correlation_threshold(limits));
        lemma_improves_self(world, rest, types, correlation_threshold(limits));
        lemma_improves_concat(world, rest, rest, seq![copied], seq![factor, union], types, correlation_threshold(limits));
        lemma_two_last(factors, u, f);
        lemma_improves_bag(world, rest + seq![factor, union], factors, types, correlation_threshold(limits));
        lemma_improves_trans(
            world,
            rest + seq![copied],
            rest + seq![factor, union],
            factors,
            types,
            correlation_threshold(limits),
        );
        assert(rest + seq![copied] =~= rest.push(copied));
        lemma_joined_improves(world, rest.push(copied), types, correlation_threshold(limits));
        lemma_improves_trans(world, seq![plan], rest.push(copied), factors, types, correlation_threshold(limits));
    }
}

/// The join of some plans that are reordered already.
pub proof fn lemma_factors_improve(
    world: World,
    factors: Seq<Plan>,
    types: Types,
    limits: Limits,
    rec: Reordering,
)
    requires
        regular(world),
        good(world, rec, correlation_threshold(limits)),
    ensures
        improves(world, seq![reorder_factors(factors, types, limits, rec)], factors, types, correlation_threshold(limits)),
{
    lemma_distribute_flat_improves(world, factors, types, limits);
    match distribute_flat(factors, types, limits) {
        Some(plan) => {
            lemma_rec_improves(world, plan, factors, types, rec, correlation_threshold(limits));
        },
        None => {
            lemma_greedy_improves(world, factors, types, limits, rec);
            if let Some(i) = first_singleton_union(factors) {
                lemma_first_where(factors, |factor: Plan| has_one_singleton(factor));
                lemma_without_singleton_improves(world, factors, i, types, limits, rec);
            }
        },
    }
}

/// A condition with a correlated `EXISTS` follows the subclass relation.
proof fn lemma_correlated_path(expression: Expr, types: Types, limits: Limits)
    requires
        has_highly_correlated(expression, types, limits),
    ensures
        expr_has_subclass_path(expression),
    decreases expression,
{
    match expression {
        Expr::Or(inner)
        | Expr::And(inner)
        | Expr::Coalesce(inner)
        | Expr::FunctionCall(_, inner) => {
            assert(any_has_highly_correlated(inner, types, limits));
            let i = choose|i: int|
                0 <= i < inner.len() && has_highly_correlated(#[trigger] inner[i], types, limits);
            lemma_correlated_path(inner[i], types, limits);
            assert(any_expr_has_subclass_path(inner));
        },
        Expr::Equal(left, right)
        | Expr::SameTerm(left, right)
        | Expr::Greater(left, right)
        | Expr::GreaterOrEqual(left, right)
        | Expr::Less(left, right)
        | Expr::LessOrEqual(left, right)
        | Expr::Add(left, right)
        | Expr::Subtract(left, right)
        | Expr::Multiply(left, right)
        | Expr::Divide(left, right) => {
            if has_highly_correlated(*left, types, limits) {
                lemma_correlated_path(*left, types, limits);
            } else {
                lemma_correlated_path(*right, types, limits);
            }
        },
        Expr::UnaryPlus(inner) | Expr::UnaryMinus(inner) | Expr::Not(inner) => {
            lemma_correlated_path(*inner, types, limits);
        },
        Expr::If(condition, then_case, else_case) => {
            if has_highly_correlated(*condition, types, limits) {
                lemma_correlated_path(*condition, types, limits);
            } else if has_highly_correlated(*then_case, types, limits) {
                lemma_correlated_path(*then_case, types, limits);
            } else {
                lemma_correlated_path(*else_case, types, limits);
            }
        },
        _ => {},
    }
}

/// A filtered plan in place of a join with a branch that only filters.
proof fn lemma_filtered_tamed(
    shared: Plan,
    branches: Seq<Plan>,
    i: int,
    old: Seq<Plan>,
    types: Types,
    limits: Limits,
)
    requires
        0 <= i < branches.len(),
        is_correlated_branch(branches[i], types, limits),
        old == seq![shared, (Plan::Union { inner: branches })],
    ensures
        list_tamed(seq![filter(shared, condition_of(branches[i]))], old, correlation_threshold(limits)),
        forall|sure: Names, outside: Names, late: Names| #[trigger]
            all_joined_scoped(old, sure, outside, late, correlation_threshold(limits))
                ==> plan_variables(shared) == Set::<Seq<char>>::empty(),
{
    let union = Plan::Union { inner: branches };
    let branch = branches[i];
    let e = condition_of(branch);
    let raw = Plan::Filter { inner: Box::new(shared), expression: e };
    let new = filter(shared, e);
    lemma_filter_tamer(shared, e, correlation_threshold(limits));
    lemma_tamer_one(new, raw, correlation_threshold(limits));
    lemma_one_tamed(new, seq![raw], correlation_threshold(limits));
    lemma_correlated_path(e, types, limits);
    assert(old =~= seq![shared] + seq![union]);
    lemma_names_concat(seq![shared], seq![union]);
    lemma_one(shared);
    lemma_one(union);
    let inner = match branch {
        Plan::Filter { inner, .. } => *inner,
        _ => arbitrary(),
    };
    assert(branch == Plan::Filter { inner: Box::new(inner), expression: e });
    lemma_singleton_binds(inner);
    let none = Set::<Seq<char>>::empty();
    let least = correlation_threshold(limits);
    assert forall|sure: Names, outside: Names, late: Names| #[trigger]
        all_joined_scoped(old, sure, outside, late, least) implies plan_variables(shared) == none
        && scoped(raw, sure, outside, late, least) by {
        lemma_scoped_split(seq![shared], seq![union], sure, outside, late, least);
        let wide = late.union(plans_variables(seq![shared]));
        lemma_one_scoped(union, sure, outside, wide, least);
        assert(all_scoped(branches, sure, outside, wide, least));
        assert(scoped(branch, sure, outside, wide, least));
        assert(wide == none);
        assert forall|v: Seq<char>| !plan_variables(shared).contains(v) && !late.contains(v) by {
            assert(!wide.contains(v));
        }
        assert(plan_variables(shared) =~= none);
        assert(late =~= none);
        let used = late.union(plans_variables(seq![union]));
        lemma_one_scoped(shared, sure, outside, used, least);
        lemma_scoped_more(shared, sure, outside, used, sure, outside, late, least);
        let (a, b) = (sure.union(binds(inner)), sure.union(binds(shared)));
        lemma_exists_covered_more(e, wide, a, late, b);
        lemma_scoped_expr_more(
            e,
            a,
            outside.union(wide).union(plan_variables(inner)),
            b,
            outside.union(late).union(plan_variables(shared)),
            least,
        );
    }
    assert(tamed(raw, old, correlation_threshold(limits))) by {
        assert forall|v: Seq<char>| #[trigger] expr_variables(e).contains(v) implies
            plan_variables(union).contains(v) by {
            assert(plan_variables(branches[i]).contains(v));
            assert(plans_variables(branches).contains(v));
        }
        assert(binds(union) =~= none) by {
            assert forall|v: Seq<char>| !binds(union).contains(v) by {
                if binds(union).contains(v) {
                    assert(all_bind(branches).contains(v));
                    assert(binds(branches[i]).contains(v));
                    assert(binds(inner).contains(v));
                }
            }
        }
        assert(has_subclass_path(branches[i]));
        assert(any_has_subclass_path(branches));
        assert forall|p: (Trace, bool)| #[trigger] expr_paths(e).contains(p) implies plan_paths(
            union,
        ).contains(p) by {
            assert(plan_paths(branches[i]).contains(p));
            assert(all_paths(branches).contains(p));
        }
        if plain(union) {
            assert(all_plain(branches));
            assert(plain(branches[i]));
            lemma_plain_expr_scoped(e, none, none, correlation_threshold(limits));
        }
        assert forall|late: Names, sure: Names| all_steady(old, late, sure) implies
            #[trigger] steady(raw, late, sure) by {
            assert(steady(old[0], late, sure));
            assert(steady(old[1], late, sure));
            assert(all_steady(branches, late, sure));
            assert(steady(branches[i], late, sure));
            lemma_covers_more(
                expr_variables(e),
                late,
                sure.union(binds(inner)),
                expr_variables(e),
                late,
                sure.union(binds(shared)),
            );
        }
        assert forall|v: Seq<char>| #[trigger] plan_variables(raw).contains(v) implies
            plans_variables(old).contains(v) by {
            assert(expr_variables(e).contains(v) || plan_variables(shared).contains(v));
        }
        assert forall|p: (Trace, bool)| #[trigger] plan_paths(raw).contains(p) implies joined_paths(
            old,
        ).contains(p) by {
            if !expr_paths(e).contains(p) && !plan_paths(shared).contains(p) {
                assert(plan_paths(branches[i]).contains(p));
                assert(all_paths(branches).contains(p));
            }
        }
    }
    lemma_one_tamed(raw, old, correlation_threshold(limits));
    lemma_list_trans(seq![new], seq![raw], old, correlation_threshold(limits));
}

/// What is filtered out of some branches.
proof fn lemma_filter_from(branches: Seq<Plan>, condition: spec_fn(Plan) -> bool)
    ensures
        forall|k: int|
            0 <= k < branches.filter(condition).len() ==> {
                &&& branches.contains(#[trigger] branches.filter(condition)[k])
                &&& condition(branches.filter(condition)[k])
            },
    decreases branches.len(),
{
    reveal(Seq::filter);
    if branches.len() > 0 {
        let shorter = branches.drop_last();
        lemma_filter_from(shorter, condition);
        let (all, before) = (branches.filter(condition), shorter.filter(condition));
        assert forall|k: int| 0 <= k < all.len() implies branches.contains(#[trigger] all[k])
            && condition(all[k]) by {
            if k < before.len() {
                assert(shorter.contains(before[k]));
                let i = choose|i: int| 0 <= i < shorter.len() && shorter[i] == before[k];
                assert(branches[i] == all[k]);
            } else {
                assert(branches[branches.len() - 1] == all[k]);
            }
        }
    }
}

/// Some branches of a union.
proof fn lemma_fewer_branches(plans: Seq<Plan>, branches: Seq<Plan>, threshold: nat)
    requires
        forall|k: int| 0 <= k < plans.len() ==> branches.contains(#[trigger] plans[k]),
    ensures
        tamer(union_all(plans), (Plan::Union { inner: branches }), threshold),
{
    assert forall|k: int| 0 <= k < plans.len() implies has_source(
        #[trigger] plans[k],
        branches,
        threshold,
    ) by {
        assert(branches.contains(plans[k]));
        let j = choose|j: int| 0 <= j < branches.len() && branches[j] == plans[k];
        lemma_tamer_self(plans[k], threshold);
        assert(is_branch(plans[k], branches[j], threshold));
    }
    let old = Plan::Union { inner: branches };
    if plans.len() == 0 {
        lemma_empty_tamer(union_all(plans), old, threshold);
    } else {
        lemma_union_drawn(plans, branches, threshold);
        lemma_union_tamer(plans, threshold);
        lemma_tamer_trans(union_all(plans), (Plan::Union { inner: plans }), old, threshold);
    }
}

/// Plans divided by a condition are the plans in another order.
proof fn lemma_divided(
    branches: Seq<Plan>,
    condition: spec_fn(Plan) -> bool,
    other: spec_fn(Plan) -> bool,
)
    requires
        forall|branch: Plan| #[trigger] other(branch) == !condition(branch),
    ensures
        same(branches.filter(condition) + branches.filter(other), branches),
    decreases branches.len(),
{
    broadcast use vstd::seq_lib::group_to_multiset_ensures;

    reveal(Seq::filter);
    let (a, b) = (branches.filter(condition), branches.filter(other));
    if branches.len() > 0 {
        let shorter = branches.drop_last();
        let last = branches.last();
        let (c, d) = (shorter.filter(condition), shorter.filter(other));
        lemma_divided(shorter, condition, other);
        assert(branches =~= shorter.push(last));
        if condition(last) {
            assert(b =~= d);
            assert(a =~= c.push(last));
            lemma_same_swap(c.push(last), d);
            lemma_same_swap(c, d);
            assert(d + c.push(last) =~= (d + c).push(last));
        } else {
            assert(a =~= c);
            assert(c + d.push(last) =~= (c + d).push(last));
        }
    } else {
        assert(a + b =~= branches);
    }
}

/// A plan that binds nothing, under a condition, is the plan joined with the
/// condition on one row without values.
proof fn lemma_filtered_eval(world: World, shared: Plan, branch: Plan, input: Solution)
    requires
        regular(world),
        plan_variables(shared) == Set::<Seq<char>>::empty(),
        branch matches Plan::Filter { inner, .. } && is_empty_singleton(*inner),
    ensures
        same(
            joined_bags(eval(world, branch, input), eval(world, shared, input)),
            eval(world, filter(shared, condition_of(branch)), input),
        ),
{
    let e = condition_of(branch);
    let s = eval(world, shared, input);
    let test = condition(world, e);
    if let Plan::Filter { inner, .. } = branch {
        lemma_singleton(world, *inner, input);
        lemma_filter(world, shared, e, input);
        lemma_eval_within(world, shared, input);
        lemma_eval_extends(world, shared, input);
        assert forall|i: int| 0 <= i < s.len() implies #[trigger] s[i] == input by {
            assert(within(s[i], input, plan_variables(shared)));
            assert(extends(s[i], input));
            assert(s[i] =~= input);
        }
        let f = |item: Solution|
            if test(item) {
                seq![item]
            } else {
                seq![]
            };
        lemma_gather_single(input, f);
        if test(input) {
            assert(eval(world, branch, input) == seq![input]);
            lemma_joined_one(input, s);
            let g = |other: Solution| merged(input, other);
            assert forall|i: int| 0 <= i < s.len() implies g(#[trigger] s[i]) == seq![s[i]] by {
                assert(merge(input, input) =~= input);
            }
            lemma_gather_items(s, g);
            lemma_gather_items(s, f);
        } else {
            assert(eval(world, branch, input) == Seq::<Solution>::empty());
            lemma_join_nothing(s);
            lemma_gather_nothing(s, f);
        }
    }
}

/// The solutions of alternative plans.
proof fn lemma_gathered(world: World, plans: Seq<Plan>, input: Solution)
    ensures
        eval_all(world, plans, input) == gather(plans, |plan: Plan| eval(world, plan, input)),
    decreases plans.len(),
{
    if plans.len() > 0 {
        lemma_gathered(world, plans.drop_last(), input);
    }
}

/// A plan that binds nothing, filtered instead of joined with branches that only
/// filter.
proof fn lemma_filter_instead_eval(
    world: World,
    shared: Plan,
    branches: Seq<Plan>,
    types: Types,
    limits: Limits,
    input: Solution,
)
    requires
        regular(world),
        plan_variables(shared) == Set::<Seq<char>>::empty(),
    ensures
        ({
            let t = infer(shared, types);
            let others = other_branches(branches, t, limits);
            let filtered = filtered_by_each(shared, correlated_branches(branches, t, limits));
            let both = keyed_join(shared, union_all(others), types);
            let old = eval_join(world, seq![shared, (Plan::Union { inner: branches })], input);
            &&& others.len() == 0 ==> same(eval(world, union_all(filtered), input), old)
            &&& same(eval(world, union_all(filtered.push(both)), input), old)
        }),
{
    let t = infer(shared, types);
    let union = Plan::Union { inner: branches };
    let chosen = |branch: Plan| is_correlated_branch(branch, t, limits);
    let correlated = correlated_branches(branches, t, limits);
    let others = other_branches(branches, t, limits);
    let filtered = filtered_by_each(shared, correlated);
    let rest = union_all(others);
    let keys = join_keys(infer(shared, types), infer(rest, types), types);
    let both = keyed_join(shared, rest, types);
    let s = eval(world, shared, input);
    let (c, d) = (eval_all(world, correlated, input), eval_all(world, others, input));
    lemma_filter_from(branches, chosen);
    assert forall|i: int| 0 <= i < correlated.len() implies same(
        joined_bags(eval(world, #[trigger] correlated[i], input), s),
        eval(world, filtered[i], input),
    ) by {
        lemma_filtered_eval(world, shared, correlated[i], input);
    }
    lemma_distribute_union(world, correlated, filtered, s, input);
    lemma_union_all(world, filtered, input);
    lemma_union_all(world, filtered.push(both), input);
    lemma_union_all(world, others, input);
    assert(filtered.push(both).drop_last() =~= filtered);
    lemma_join(world, shared, rest, keys, input);
    lemma_eval_two(world, shared, union, input);
    let left_over = |branch: Plan| !is_correlated_branch(branch, t, limits);
    lemma_divided(branches, chosen, left_over);
    let f = |plan: Plan| eval(world, plan, input);
    lemma_gathered(world, correlated, input);
    lemma_gathered(world, others, input);
    lemma_gathered(world, branches, input);
    lemma_gather_concat(correlated, others, f);
    lemma_gather_order(correlated + others, branches, f);
    lemma_join_commutes(s, eval_all(world, branches, input));
    lemma_join_same(eval_all(world, branches, input), s, c + d, s);
    lemma_join_splits(c, d, s);
    lemma_join_commutes(s, d);
    lemma_same_concat(joined_bags(c, s), joined_bags(d, s), eval_all(world, filtered, input), eval(
        world,
        both,
        input,
    ));
    if others.len() == 0 {
        lemma_join_nothing(s);
        assert(c + d =~= c);
    }
}

/// Filtering instead of joining with branches that only filter. Such branches
/// are joined only with plans that bind nothing.
proof fn lemma_filter_instead_improves(
    world: World,
    shared: Plan,
    union: Plan,
    types: Types,
    limits: Limits,
)
    requires
        regular(world),
    ensures
        match filter_instead_of_join(shared, union, types, limits) {
            Some(plan) => improves(world, seq![plan], seq![shared, union], types, correlation_threshold(limits)),
            None => true,
        },
{
    let old = seq![shared, union];
    if let Plan::Union { inner } = union {
        let t = infer(shared, types);
        let correlated = correlated_branches(inner, t, limits);
        let others = other_branches(inner, t, limits);
        let filtered = filtered_by_each(shared, correlated);
        if correlated.len() > 0 && distinct_variables(types) {
            lemma_filter_from(inner, |branch: Plan| is_correlated_branch(branch, t, limits));
            lemma_filter_from(inner, |branch: Plan| !is_correlated_branch(branch, t, limits));
            assert forall|k: int| 0 <= k < filtered.len() implies list_tamed(
                seq![#[trigger] filtered[k]],
                old,
                correlation_threshold(limits),
            ) by {
                assert(inner.contains(correlated[k]));
                let i = choose|i: int| 0 <= i < inner.len() && inner[i] == correlated[k];
                lemma_filtered_tamed(shared, inner, i, old, t, limits);
            }
            assert(inner.contains(correlated[0]));
            let i = choose|i: int| 0 <= i < inner.len() && inner[i] == correlated[0];
            lemma_filtered_tamed(shared, inner, i, old, t, limits);
            let rest = union_all(others);
            let both = keyed_join(shared, rest, types);
            let keys = join_keys(infer(shared, types), infer(rest, types), types);
            lemma_join_improves(world, shared, rest, keys, types, correlation_threshold(limits));
            lemma_fewer_branches(others, inner, correlation_threshold(limits));
            lemma_tamer_one(rest, union, correlation_threshold(limits));
            lemma_one_tamed(rest, seq![union], correlation_threshold(limits));
            lemma_improves_self(world, seq![shared], types, correlation_threshold(limits));
            lemma_list_concat(seq![shared], seq![shared], seq![rest], seq![union], correlation_threshold(limits));
            assert(seq![shared] + seq![rest] =~= seq![shared, rest]);
            assert(seq![shared] + seq![union] =~= old);
            lemma_list_trans(seq![both], seq![shared, rest], old, correlation_threshold(limits));
            let all = filtered.push(both);
            assert forall|k: int| 0 <= k < all.len() implies list_tamed(
                seq![#[trigger] all[k]],
                old,
                correlation_threshold(limits),
            ) by {
                if k < filtered.len() {
                    assert(all[k] == filtered[k]);
                }
            }
            lemma_union_tamed(filtered, old, correlation_threshold(limits));
            lemma_union_tamed(all, old, correlation_threshold(limits));
            let new = if others.len() == 0 {
                union_all(filtered)
            } else {
                union_all(all)
            };
            assert forall|input: Solution, sure: Names, outside: Names, late: Names| #[trigger]
                agrees(
                    world,
                    seq![new],
                    old,
                    types,
                    input,
                    sure,
                    outside,
                    late,
                    correlation_threshold(limits),
                ) by {
                if all_joined_scoped(old, sure, outside, late, correlation_threshold(limits)) {
                    lemma_filter_instead_eval(world, shared, inner, types, limits, input);
                    lemma_eval_join_one(world, new, input);
                }
            }
        }
    }
}

/// Two joined plans the other way round.
proof fn lemma_swapped(world: World, left: Plan, right: Plan, types: Types, threshold: nat)
    requires
        regular(world),
    ensures
        improves(world, seq![right, left], seq![left, right], types, threshold),
{
    lemma_same_swap(seq![right], seq![left]);
    assert(seq![right] + seq![left] =~= seq![right, left]);
    assert(seq![left] + seq![right] =~= seq![left, right]);
    lemma_improves_bag(world, seq![right, left], seq![left, right], types, threshold);
}

proof fn lemma_distribute_either_improves(
    world: World,
    left: Plan,
    right: Plan,
    types: Types,
    limits: Limits,
)
    requires
        regular(world),
    ensures
        match distribute_either(left, right, types, limits) {
            Some(plan) => improves(world, seq![plan], seq![left, right], types, correlation_threshold(limits)),
            None => true,
        },
{
    if let Some(plan) = distribute_either(left, right, types, limits) {
        if left is Union {
            assert(left == Plan::Union { inner: union_branches(left) });
            lemma_distribute_improves(world, right, union_branches(left), types, correlation_threshold(limits));
            lemma_swapped(world, left, right, types, correlation_threshold(limits));
            lemma_improves_trans(
                world,
                seq![plan],
                seq![right, left],
                seq![left, right],
                types,
                correlation_threshold(limits),
            );
        } else {
            assert(right == Plan::Union { inner: union_branches(right) });
            lemma_distribute_improves(world, left, union_branches(right), types, correlation_threshold(limits));
        }
    }
}

proof fn lemma_split_off_improves(
    world: World,
    left: Plan,
    right: Plan,
    new_left: Plan,
    new_right: Plan,
    types: Types,
    limits: Limits,
)
    requires
        regular(world),
    ensures
        match split_off_singleton(left, right, new_left, new_right, types, limits) {
            Some(plan) => improves(world, seq![plan], seq![left, right], types, correlation_threshold(limits)),
            None => true,
        },
{
    if let Some(plan) = split_off_singleton(left, right, new_left, new_right, types, limits) {
        if has_one_singleton(right) {
            let rest = union_all(singleton_others(right));
            let keys = join_keys(infer(left, types), infer(rest, types), types);
            lemma_improves_self(world, seq![left], types, correlation_threshold(limits));
            lemma_join_improves(world, left, rest, keys, types, correlation_threshold(limits));
            assert(seq![left].push(rest) =~= seq![left, rest]);
            assert(seq![left].push(right) =~= seq![left, right]);
            lemma_split_improves(
                world,
                seq![left],
                right,
                left,
                join(left, rest, keys),
                types,
                correlation_threshold(limits),
            );
        } else {
            let rest = union_all(singleton_others(left));
            let keys = join_keys(infer(rest, types), infer(right, types), types);
            lemma_improves_self(world, seq![right], types, correlation_threshold(limits));
            lemma_join_improves(world, rest, right, keys, types, correlation_threshold(limits));
            lemma_swapped(world, right, rest, types, correlation_threshold(limits));
            lemma_improves_trans(
                world,
                seq![join(rest, right, keys)],
                seq![rest, right],
                seq![right, rest],
                types,
                correlation_threshold(limits),
            );
            assert(seq![right].push(rest) =~= seq![right, rest]);
            assert(seq![right].push(left) =~= seq![right, left]);
            lemma_split_improves(
                world,
                seq![right],
                left,
                right,
                join(rest, right, keys),
                types,
                correlation_threshold(limits),
            );
            lemma_swapped(world, left, right, types, correlation_threshold(limits));
            lemma_improves_trans(
                world,
                seq![plan],
                seq![right, left],
                seq![left, right],
                types,
                correlation_threshold(limits),
            );
        }
    }
}

/// A reordered join stands for the two plans.
#[verifier::spinoff_prover]
#[verifier::rlimit(30)]
pub proof fn lemma_reorder_join_improves(
    world: World,
    left: Plan,
    right: Plan,
    types: Types,
    limits: Limits,
    rec: Reordering,
)
    requires
        regular(world),
        good(world, rec, correlation_threshold(limits)),
    ensures
        improves(
            world,
            seq![reorder_join(left, right, types, limits, rec)],
            seq![left, right],
            types,
            correlation_threshold(limits),
        ),
{
    let pair = seq![left, right];
    let (new_left, new_right) = (rec(left, types), rec(right, types));
    lemma_filter_instead_improves(world, left, right, types, limits);
    lemma_filter_instead_improves(world, right, left, types, limits);
    lemma_swapped(world, left, right, types, correlation_threshold(limits));
    lemma_distribute_either_improves(world, left, right, types, limits);
    lemma_split_off_improves(world, left, right, new_left, new_right, types, limits);
    match filter_instead_of_either(left, right, types, limits) {
        Some(plan) => {
            if filter_instead_of_join(left, right, types, limits) is None {
                lemma_improves_trans(world, seq![plan], seq![right, left], pair, types, correlation_threshold(limits));
            }
            lemma_rec_improves(world, plan, pair, types, rec, correlation_threshold(limits));
        },
        None => match distribute_either(left, right, types, limits) {
            Some(plan) => {
                lemma_rec_improves(world, plan, pair, types, rec, correlation_threshold(limits));
            },
            None => match split_off_singleton(left, right, new_left, new_right, types, limits) {
                Some(plan) => {
                    lemma_rec_improves(world, plan, pair, types, rec, correlation_threshold(limits));
                },
                None => {
                    let fs = reordered_factors(left, right, types, rec);
                    lemma_reordered_improves(world, left, right, types, rec, correlation_threshold(limits));
                    lemma_factors_improve(world, fs, types, limits, rec);
                    lemma_improves_trans(
                        world,
                        seq![reorder_factors(fs, types, limits, rec)],
                        fs,
                        pair,
                        types,
                        correlation_threshold(limits),
                    );
                    let both = seq![new_left, new_right];
                    assert forall|i: int| 0 <= i < both.len() implies better(
                        world,
                        #[trigger] both[i],
                        pair[i],
                        types,
                        correlation_threshold(limits),
                    ) by {
                        assert(both[i] == rec(pair[i], types));
                    }
                    lemma_improves_each(world, both, pair, types, correlation_threshold(limits));
                    let keys = join_keys(infer(new_left, types), infer(new_right, types), types);
                    lemma_join_improves(world, new_left, new_right, keys, types, correlation_threshold(limits));
                    lemma_improves_trans(
                        world,
                        seq![join(new_left, new_right, keys)],
                        both,
                        pair,
                        types,
                        correlation_threshold(limits),
                    );
                },
            },
        },
    }
}

} // verus!
