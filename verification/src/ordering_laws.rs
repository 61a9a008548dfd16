//! The order in which plans are joined does not change the solutions.

use vstd::prelude::*;

use crate::algebra::Plan;
use crate::bags::{lemma_gather_same, lemma_same_concat, lemma_same_items, lemma_same_swap, same};
use crate::builders::{join, lateral};
use crate::eval_basics::{lemma_contains_index, lemma_eval_within, within};
use crate::factoring::{all_joined_scoped, lemma_names_concat, lemma_one, tamed};
use crate::for_loop::{everything_remains, fits};
use crate::greedy::{least, lemma_least};
use crate::joins::{eval_join, lemma_eval_join_concat, lemma_eval_join_one};
use crate::limits::Limits;
use crate::lookups::{correlation_threshold, entry_size, join_keys};
use crate::looping::{bindable, enters, law_loops_join, lemma_fits_loops, lemma_follow_same};
use crate::loops::{follows, gained};
use crate::normalize_laws::{lemma_solution_placed, placed};
use crate::plan_laws::{lemma_eval_extends, lemma_join, lemma_lateral};
use crate::plan_taming::lemma_lateral_tamer;
use crate::reorder::{
    attach, components, crossed, entry_keys, greedy_join, grow, next_keys, runs_in_loop, Reordering,
};
use crate::reorder_measure::{lemma_all_flagged, lemma_flagged_prefix};
use crate::rewrites::flagged;
use crate::rewriting::{
    agrees, better, each_once, improves, lemma_eval_join_bag, lemma_improves_bag,
    lemma_improves_concat, lemma_improves_self, lemma_improves_trans, lemma_join_improves,
    lemma_joined_improves, lemma_list_concat, lemma_list_trans, lemma_once_less, lemma_one_scoped,
    lemma_one_tamed, lemma_paths_bag, lemma_scoped_split, lemma_tamer_one, list_tamed, preserved,
};
use crate::rewriting_unions::lemma_eval_two;
use crate::scope::binds;
use crate::scoping::{
    all_steady, hidden_variables, joined_paths, lemma_plain_loops, lemma_scoped_hygienic,
    lemma_scoped_more, lemma_steady_more, plain, plan_paths, scoped, steady, Names,
};
use crate::semantics::{allowed, eval, evaluator, has_types, regular, typed, World};
use crate::solutions::{
    extends, joined_bags, joined_with, lemma_join_same, lemma_joined_bags_contains, lookup,
    Solution,
};
use crate::taming::tamer;
use crate::type_inference::{distinct_variables, infer, intersect, type_of, Types, VariableType};
use crate::type_laws::{lemma_infer_distinct, lemma_intersect_types};
use crate::typing::lemma_typed_merge;
use crate::variables::{plan_variables, plans_variables};

verus! {

/// A way of reordering that makes every plan better.
pub open spec fn good(world: World, rec: Reordering, threshold: nat) -> bool {
    forall|plan: Plan, types: Types| better(
        world,
        #[trigger] rec(plan, types),
        plan,
        types,
        threshold,
    )
}

/// A factor in its place beside what is already joined.
proof fn lemma_pair_scoped(
    output: Plan,
    factor: Plan,
    sure: Names,
    outside: Names,
    late: Names,
    threshold: nat,
)
    requires
        all_joined_scoped(seq![output, factor], sure, outside, late, threshold),
    ensures
        scoped(output, sure, outside, late.union(plan_variables(factor)), threshold),
        scoped(factor, sure, outside, late.union(plan_variables(output)), threshold),
{
    let pair = seq![output, factor];
    assert(pair =~= seq![output] + seq![factor]);
    lemma_scoped_split(seq![output], seq![factor], sure, outside, late, threshold);
    lemma_one(output);
    lemma_one(factor);
    lemma_one_scoped(output, sure, outside, late.union(plan_variables(factor)), threshold);
    lemma_one_scoped(factor, sure, outside, late.union(plan_variables(output)), threshold);
}

/// A factor that fits a loop has its scopes in order in the loop.
pub proof fn lemma_loop_scoped(
    output: Plan,
    factor: Plan,
    global: Types,
    entry: Types,
    size: nat,
    limits: Limits,
    sure: Names,
    outside: Names,
    late: Names,
    sure2: Names,
    late2: Names,
)
    requires
        fits(factor, global, entry, size, limits),
        distinct_variables(global),
        distinct_variables(entry),
        scoped(factor, sure, outside, late.union(plan_variables(output)), correlation_threshold(limits)),
        sure.subset_of(sure2),
        late2.subset_of(late.union(plan_variables(output))),
    ensures
        scoped(factor, sure2, outside.union(plan_variables(output)), late2, correlation_threshold(limits)),
{
    let wide = late.union(plan_variables(output));
    if wide == Set::<Seq<char>>::empty() {
        assert forall|v: Seq<char>| !plan_variables(output).contains(v) by {
            assert(!wide.contains(v));
        }
        assert(outside.union(plan_variables(output)) =~= outside);
    } else {
        lemma_fits_loops(factor, global, entry, size, limits);
    }
    lemma_scoped_more(
        factor,
        sure,
        outside,
        wide,
        sure2,
        outside.union(plan_variables(output)),
        late2,
        correlation_threshold(limits),
    );
}

/// A lateral join in place of a join.
proof fn lemma_loop_tamed(
    output: Plan,
    inner: Plan,
    factor: Plan,
    global: Types,
    entry: Types,
    size: nat,
    limits: Limits,
)
    requires
        fits(factor, global, entry, size, limits),
        distinct_variables(global),
        distinct_variables(entry),
        tamer(inner, factor, correlation_threshold(limits)),
    ensures
        list_tamed(seq![lateral(output, inner)], seq![output, factor], correlation_threshold(limits)),
{
    let pair = seq![output, factor];
    let raw = Plan::Lateral { left: Box::new(output), right: Box::new(inner) };
    let new = lateral(output, inner);
    assert(pair =~= seq![output] + seq![factor]);
    lemma_names_concat(seq![output], seq![factor]);
    lemma_one(output);
    lemma_one(factor);
    assert(tamed(raw, pair, correlation_threshold(limits))) by {
        if plain(output) && plain(factor) {
            lemma_fits_loops(factor, global, entry, size, limits);
            lemma_plain_loops(factor);
            assert forall|v: Seq<char>| !#[trigger] hidden_variables(inner).contains(v) by {
                if hidden_variables(inner).contains(v) {
                    assert(hidden_variables(factor).contains(v));
                }
            }
            assert(plain(raw));
        }
        assert forall|late: Names, sure: Names| all_steady(pair, late, sure) implies
            #[trigger] steady(raw, late, sure) by {
            assert(steady(pair[0], late, sure));
            assert(steady(pair[1], late, sure));
            assert(steady(inner, late, sure));
            lemma_steady_more(inner, late, sure, late, sure.union(binds(output)));
        }
        assert forall|sure: Names, outside: Names, late: Names|
            all_joined_scoped(pair, sure, outside, late, correlation_threshold(limits)) implies #[trigger] scoped(
            raw,
            sure,
            outside,
            late,
            correlation_threshold(limits),
        ) by {
            lemma_pair_scoped(output, factor, sure, outside, late, correlation_threshold(limits));
            lemma_scoped_more(
                output,
                sure,
                outside,
                late.union(plan_variables(factor)),
                sure,
                outside,
                late,
                correlation_threshold(limits),
            );
            let sure2 = sure.union(binds(output));
            lemma_loop_scoped(
                output,
                factor,
                global,
                entry,
                size,
                limits,
                sure,
                outside,
                late,
                sure2,
                late,
            );
            assert(scoped(inner, sure2, outside.union(plan_variables(output)), late, correlation_threshold(limits)));
        }
    }
    lemma_one_tamed(raw, pair, correlation_threshold(limits));
    lemma_lateral_tamer(output, inner, correlation_threshold(limits));
    lemma_tamer_one(new, raw, correlation_threshold(limits));
    lemma_one_tamed(new, seq![raw], correlation_threshold(limits));
    lemma_list_trans(seq![new], seq![raw], pair, correlation_threshold(limits));
}

/// A factor that fits a loop, in the loop over a solution of what is already
/// joined.
pub proof fn lemma_loop_item(
    world: World,
    output: Plan,
    inner: Plan,
    factor: Plan,
    types: Types,
    output_types: Types,
    size: nat,
    limits: Limits,
    input: Solution,
    sure: Names,
    outside: Names,
    late: Names,
    s: Solution,
)
    requires
        regular(world),
        fits(factor, types, output_types, size, limits),
        distinct_variables(output_types),
        better(world, inner, factor, output_types, correlation_threshold(limits)),
        each_once(world, plan_paths(factor)),
        placed(input, types, outside),
        sure.subset_of(input.dom()),
        scoped(factor, sure, outside, late.union(plan_variables(output)), correlation_threshold(limits)),
        eval(world, output, input).contains(s),
        has_types(s, output_types),
    ensures
        same(eval(world, inner, s), joined_with(s, eval(world, factor, input))),
{
    let wide = late.union(plan_variables(output));
    let outside2 = outside.union(plan_variables(output));
    let o = eval(world, output, input);
    let k = choose|k: int| 0 <= k < o.len() && o[k] == s;
    lemma_eval_extends(world, output, input);
    assert(extends(o[k], input));
    lemma_eval_within(world, output, input);
    assert(within(o[k], input, plan_variables(output)));
    assert(gained(input, s).subset_of(plan_variables(output)));
    lemma_loop_scoped(
        output,
        factor,
        types,
        output_types,
        size,
        limits,
        sure,
        outside,
        late,
        sure,
        wide,
    );
    assert(placed(s, output_types, outside2));
    assert(sure.subset_of(s.dom()));
    assert(preserved(world, inner, factor, output_types, s, sure, outside2, wide, correlation_threshold(limits)));
    assert(same(eval(world, inner, s), eval(world, factor, s)));
    assert(follows(world, factor, input, s)) by {
        if wide == Set::<Seq<char>>::empty() {
            assert forall|v: Seq<char>| s.dom().contains(v) implies input.dom().contains(v) by {
                if !input.dom().contains(v) {
                    assert(gained(input, s).contains(v));
                    assert(wide.contains(v));
                }
            }
            assert(s =~= input);
            lemma_follow_same(world, factor, input);
        } else {
            assert(typed(input, types, input.dom())) by {
                assert forall|v: Seq<char>|
                    allowed(
                        #[trigger] type_of(types, v),
                        lookup(input, v),
                        input.dom().contains(v),
                    ) by {
                    assert(allowed(type_of(types, v), lookup(input, v), false));
                }
            }
            assert(bindable(output_types, gained(input, s))) by {
                assert forall|v: Seq<char>| gained(input, s).contains(v) implies #[trigger] type_of(
                    output_types,
                    v,
                ) != VariableType::of_undef() by {
                    assert(allowed(type_of(output_types, v), lookup(s, v), false));
                }
            }
            assert(enters(input, s, types, output_types, sure, outside, wide));
            law_loops_join(
                world,
                factor,
                types,
                output_types,
                size,
                limits,
                sure,
                outside,
                wide,
                input,
                s,
            );
        }
    }
}

/// A factor joined to what is already joined: the scopes.
pub proof fn lemma_attach_tamed(
    world: World,
    output: Plan,
    output_types: Types,
    factor: Plan,
    types: Types,
    limits: Limits,
    rec: Reordering,
)
    requires
        regular(world),
        good(world, rec, correlation_threshold(limits)),
        distinct_variables(types),
        distinct_variables(output_types),
    ensures
        list_tamed(
            seq![attach(output, output_types, factor, types, limits, rec)],
            seq![output, factor],
            correlation_threshold(limits),
        ),
{
    if runs_in_loop(output, output_types, factor, types, limits) {
        let inner = rec(factor, output_types);
        assert(better(world, inner, factor, output_types, correlation_threshold(limits)));
        lemma_loop_tamed(
            output,
            inner,
            factor,
            types,
            output_types,
            entry_size(output, types, limits),
            limits,
        );
    } else {
        let keys = join_keys(output_types, infer(factor, types), types);
        lemma_join_improves(world, output, factor, keys, types, correlation_threshold(limits));
    }
}

/// A factor joined to what is already joined: the solutions.
pub proof fn lemma_attach_eval(
    world: World,
    output: Plan,
    output_types: Types,
    factor: Plan,
    types: Types,
    limits: Limits,
    rec: Reordering,
    input: Solution,
    sure: Names,
    outside: Names,
    late: Names,
)
    requires
        regular(world),
        good(world, rec, correlation_threshold(limits)),
        distinct_variables(output_types),
        each_once(world, plan_paths(factor)),
        placed(input, types, outside),
        sure.subset_of(input.dom()),
        all_joined_scoped(seq![output, factor], sure, outside, late, correlation_threshold(limits)),
        forall|s: Solution| #[trigger]
            eval(world, output, input).contains(s) ==> has_types(s, output_types),
    ensures
        ({
            let new = attach(output, output_types, factor, types, limits, rec);
            &&& same(
                eval(world, new, input),
                joined_bags(eval(world, output, input), eval(world, factor, input)),
            )
            &&& forall|s: Solution| #[trigger]
                eval(world, new, input).contains(s) ==> has_types(
                    s,
                    intersect(output_types, infer(factor, types)),
                )
        }),
{
    let new = attach(output, output_types, factor, types, limits, rec);
    let (o, f) = (eval(world, output, input), eval(world, factor, input));
    lemma_pair_scoped(output, factor, sure, outside, late, correlation_threshold(limits));
    if runs_in_loop(output, output_types, factor, types, limits) {
        let inner = rec(factor, output_types);
        assert(better(world, inner, factor, output_types, correlation_threshold(limits)));
        lemma_lateral(world, output, inner, input);
        let g = |s: Solution| joined_with(s, f);
        assert forall|i: int| 0 <= i < o.len() implies same(
            evaluator(world, inner)(#[trigger] o[i]),
            g(o[i]),
        ) by {
            lemma_contains_index(o, i);
            lemma_loop_item(
                world,
                output,
                inner,
                factor,
                types,
                output_types,
                entry_size(output, types, limits),
                limits,
                input,
                sure,
                outside,
                late,
                o[i],
            );
        }
        lemma_gather_same(o, evaluator(world, inner), g);
    } else {
        let keys = join_keys(output_types, infer(factor, types), types);
        lemma_join(world, output, factor, keys, input);
    }
    let next = intersect(output_types, infer(factor, types));
    assert forall|s: Solution| #[trigger] eval(world, new, input).contains(s) implies has_types(
        s,
        next,
    ) by {
        lemma_same_items(eval(world, new, input), joined_bags(o, f));
        let (i, j) = lemma_joined_bags_contains(o, f, s);
        lemma_contains_index(o, i);
        lemma_contains_index(f, j);
        lemma_scoped_hygienic(factor, sure, outside, late.union(plan_variables(output)), correlation_threshold(limits));
        lemma_solution_placed(world, factor, input, types, outside, f[j]);
        let none = Set::<Seq<char>>::empty();
        lemma_typed_merge(o[i], f[j], output_types, infer(factor, types), none, none);
        assert(none.intersect(none) =~= none);
    }
}

/// What remains is what remains without a factor, and the factor.
pub proof fn lemma_take_remaining(factors: Seq<Plan>, remaining: Seq<bool>, i: int)
    requires
        0 <= i < factors.len() <= remaining.len(),
        remaining[i],
    ensures
        same(
            seq![factors[i]] + flagged(factors, remaining.update(i, false), true),
            flagged(factors, remaining, true),
        ),
        flagged(factors, remaining, true).len() == flagged(
            factors,
            remaining.update(i, false),
            true,
        ).len() + 1,
    decreases factors.len(),
{
    let shorter = factors.drop_last();
    let after = remaining.update(i, false);
    let last = factors.last();
    let (a, b) = (flagged(shorter, remaining, true), flagged(shorter, after, true));
    if i == factors.len() - 1 {
        lemma_flagged_prefix(shorter, remaining, after);
        assert(flagged(factors, remaining, true) == a.push(last));
        assert(flagged(factors, after, true) == b);
        lemma_same_swap(seq![last], a);
        assert(a + seq![last] =~= a.push(last));
    } else {
        lemma_take_remaining(shorter, remaining, i);
        assert(shorter[i] == factors[i]);
        if remaining[factors.len() - 1] {
            assert(flagged(factors, remaining, true) == a.push(last));
            assert(flagged(factors, after, true) == b.push(last));
            lemma_same_concat(seq![factors[i]] + b, seq![last], a, seq![last]);
            assert((seq![factors[i]] + b) + seq![last] =~= seq![factors[i]] + b.push(last));
            assert(a + seq![last] =~= a.push(last));
        } else {
            assert(flagged(factors, remaining, true) == a);
            assert(flagged(factors, after, true) == b);
        }
    }
}

/// Where nothing remains, no plan is left.
pub proof fn lemma_none_flagged(factors: Seq<Plan>, flags: Seq<bool>)
    requires
        forall|i: int| 0 <= i < factors.len() ==> !#[trigger] flags[i],
    ensures
        flagged(factors, flags, true).len() == 0,
    decreases factors.len(),
{
    if factors.len() > 0 {
        lemma_none_flagged(factors.drop_last(), flags);
        assert(!flags[factors.len() - 1]);
    }
}

/// The paths of a factor, and of what remains without it.
proof fn lemma_remaining_once(
    world: World,
    factors: Seq<Plan>,
    remaining: Seq<bool>,
    i: int,
)
    requires
        0 <= i < factors.len() <= remaining.len(),
        remaining[i],
        each_once(world, joined_paths(flagged(factors, remaining, true))),
    ensures
        each_once(world, plan_paths(factors[i])),
        each_once(world, joined_paths(flagged(factors, remaining.update(i, false), true))),
{
    let left = flagged(factors, remaining.update(i, false), true);
    let old = flagged(factors, remaining, true);
    lemma_take_remaining(factors, remaining, i);
    lemma_same_items(seq![factors[i]] + left, old);
    lemma_paths_bag(seq![factors[i]] + left, old);
    lemma_names_concat(seq![factors[i]], left);
    lemma_one(factors[i]);
    lemma_once_less(world, plan_paths(factors[i]), joined_paths(old));
    lemma_once_less(world, joined_paths(left), joined_paths(old));
}

/// Taking a factor to what is already joined.
proof fn lemma_taken_bag(
    output: Plan,
    factors: Seq<Plan>,
    remaining: Seq<bool>,
    i: int,
)
    requires
        0 <= i < factors.len() <= remaining.len(),
        remaining[i],
    ensures
        same(
            seq![output, factors[i]] + flagged(factors, remaining.update(i, false), true),
            seq![output] + flagged(factors, remaining, true),
        ),
{
    let rest = flagged(factors, remaining.update(i, false), true);
    lemma_take_remaining(factors, remaining, i);
    lemma_same_concat(
        seq![output],
        seq![factors[i]] + rest,
        seq![output],
        flagged(factors, remaining, true),
    );
    assert(seq![output] + (seq![factors[i]] + rest) =~= seq![output, factors[i]] + rest);
}

/// Joining the connected factors: the scopes.
pub proof fn lemma_grow_tamed(
    world: World,
    factors: Seq<Plan>,
    output: Plan,
    output_types: Types,
    remaining: Seq<bool>,
    types: Types,
    limits: Limits,
    rec: Reordering,
    steps: nat,
)
    requires
        regular(world),
        good(world, rec, correlation_threshold(limits)),
        distinct_variables(types),
        distinct_variables(output_types),
        remaining.len() == factors.len(),
    ensures
        ({
            let (result, rest) = grow(
                factors,
                output,
                output_types,
                remaining,
                types,
                limits,
                rec,
                steps,
            );
            &&& rest.len() == factors.len()
            &&& flagged(factors, rest, true).len() <= flagged(factors, remaining, true).len()
            &&& list_tamed(
                seq![result] + flagged(factors, rest, true),
                seq![output] + flagged(factors, remaining, true),
                correlation_threshold(limits),
            )
        }),
    decreases steps,
{
    let old = seq![output] + flagged(factors, remaining, true);
    let keys = next_keys(factors, remaining, output, output_types, types, limits);
    lemma_least(keys);
    if steps > 0 && least(keys) is Some {
        let i = least(keys).unwrap();
        let next = attach(output, output_types, factors[i], types, limits, rec);
        let after = remaining.update(i, false);
        let next_types = intersect(output_types, infer(factors[i], types));
        let left = flagged(factors, after, true);
        lemma_infer_distinct(factors[i], types);
        lemma_intersect_types(output_types, infer(factors[i], types));
        lemma_attach_tamed(world, output, output_types, factors[i], types, limits, rec);
        lemma_take_remaining(factors, remaining, i);
        lemma_taken_bag(output, factors, remaining, i);
        let pair = seq![output, factors[i]];
        lemma_improves_bag(world, pair + left, old, types, correlation_threshold(limits));
        lemma_improves_self(world, left, types, correlation_threshold(limits));
        lemma_list_concat(seq![next], pair, left, left, correlation_threshold(limits));
        lemma_list_trans(seq![next] + left, pair + left, old, correlation_threshold(limits));
        lemma_grow_tamed(
            world,
            factors,
            next,
            next_types,
            after,
            types,
            limits,
            rec,
            (steps - 1) as nat,
        );
        let (result, rest) = grow(
            factors,
            next,
            next_types,
            after,
            types,
            limits,
            rec,
            (steps - 1) as nat,
        );
        lemma_list_trans(
            seq![result] + flagged(factors, rest, true),
            seq![next] + left,
            old,
            correlation_threshold(limits),
        );
    } else {
        lemma_improves_self(world, old, types, correlation_threshold(limits));
    }
}

/// Joining the connected factors: the solutions.
#[verifier::spinoff_prover]
pub proof fn lemma_grow_eval(
    world: World,
    factors: Seq<Plan>,
    output: Plan,
    output_types: Types,
    remaining: Seq<bool>,
    types: Types,
    limits: Limits,
    rec: Reordering,
    steps: nat,
    input: Solution,
    sure: Names,
    outside: Names,
    late: Names,
)
    requires
        regular(world),
        good(world, rec, correlation_threshold(limits)),
        distinct_variables(output_types),
        remaining.len() == factors.len(),
        each_once(world, joined_paths(flagged(factors, remaining, true))),
        placed(input, types, outside),
        sure.subset_of(input.dom()),
        all_joined_scoped(
            seq![output] + flagged(factors, remaining, true),
            sure,
            outside,
            late,
            correlation_threshold(limits),
        ),
        forall|s: Solution| #[trigger]
            eval(world, output, input).contains(s) ==> has_types(s, output_types),
    ensures
        ({
            let (result, rest) = grow(
                factors,
                output,
                output_types,
                remaining,
                types,
                limits,
                rec,
                steps,
            );
            same(
                eval_join(world, seq![result] + flagged(factors, rest, true), input),
                eval_join(world, seq![output] + flagged(factors, remaining, true), input),
            )
        }),
    decreases steps,
{
    let old = seq![output] + flagged(factors, remaining, true);
    let keys = next_keys(factors, remaining, output, output_types, types, limits);
    lemma_least(keys);
    if steps > 0 && least(keys) is Some {
        let i = least(keys).unwrap();
        let factor = factors[i];
        let next = attach(output, output_types, factor, types, limits, rec);
        let after = remaining.update(i, false);
        let next_types = intersect(output_types, infer(factor, types));
        let left = flagged(factors, after, true);
        let pair = seq![output, factor];
        lemma_infer_distinct(factor, types);
        lemma_intersect_types(output_types, infer(factor, types));
        lemma_taken_bag(output, factors, remaining, i);
        lemma_improves_bag(world, pair + left, old, types, correlation_threshold(limits));
        assert(all_joined_scoped(pair + left, sure, outside, late, correlation_threshold(limits)));
        lemma_scoped_split(pair, left, sure, outside, late, correlation_threshold(limits));
        let wide = late.union(plans_variables(left));
        lemma_remaining_once(world, factors, remaining, i);
        lemma_attach_eval(
            world,
            output,
            output_types,
            factor,
            types,
            limits,
            rec,
            input,
            sure,
            outside,
            wide,
        );
        lemma_eval_two(world, output, factor, input);
        lemma_eval_join_one(world, next, input);
        lemma_eval_join_concat(world, seq![next], left, input);
        lemma_eval_join_concat(world, pair, left, input);
        let l = eval_join(world, left, input);
        lemma_join_same(
            eval_join(world, seq![next], input),
            l,
            eval_join(world, pair, input),
            l,
        );
        lemma_eval_join_bag(world, pair + left, old, input);
        lemma_attach_tamed(world, output, output_types, factor, types, limits, rec);
        lemma_improves_self(world, left, types, correlation_threshold(limits));
        lemma_list_concat(seq![next], pair, left, left, correlation_threshold(limits));
        assert(all_joined_scoped(seq![next] + left, sure, outside, late, correlation_threshold(limits)));
        lemma_grow_eval(
            world,
            factors,
            next,
            next_types,
            after,
            types,
            limits,
            rec,
            (steps - 1) as nat,
            input,
            sure,
            outside,
            late,
        );
    }
}

/// The joins of the connected factors: the scopes.
pub proof fn lemma_components_tamed(
    world: World,
    factors: Seq<Plan>,
    remaining: Seq<bool>,
    types: Types,
    limits: Limits,
    rec: Reordering,
    steps: nat,
)
    requires
        regular(world),
        good(world, rec, correlation_threshold(limits)),
        distinct_variables(types),
        remaining.len() == factors.len(),
        flagged(factors, remaining, true).len() <= steps,
    ensures
        list_tamed(
            components(factors, remaining, types, limits, rec, steps),
            flagged(factors, remaining, true),
            correlation_threshold(limits),
        ),
    decreases steps,
{
    let old = flagged(factors, remaining, true);
    let keys = entry_keys(factors, remaining, types, limits);
    lemma_least(keys);
    let new = components(factors, remaining, types, limits, rec, steps);
    if steps > 0 && least(keys) is Some {
        let i = least(keys).unwrap();
        let after = remaining.update(i, false);
        let left = flagged(factors, after, true);
        let t = infer(factors[i], types);
        let n = factors.len();
        let (output, rest) = grow(factors, factors[i], t, after, types, limits, rec, n);
        let next = (steps - 1) as nat;
        lemma_infer_distinct(factors[i], types);
        lemma_grow_tamed(world, factors, factors[i], t, after, types, limits, rec, n);
        lemma_take_remaining(factors, remaining, i);
        lemma_improves_bag(world, seq![factors[i]] + left, old, types, correlation_threshold(limits));
        lemma_components_tamed(world, factors, rest, types, limits, rec, next);
        let more = components(factors, rest, types, limits, rec, next);
        let part = flagged(factors, rest, true);
        lemma_improves_self(world, seq![output], types, correlation_threshold(limits));
        lemma_list_concat(seq![output], seq![output], more, part, correlation_threshold(limits));
        lemma_list_trans(seq![output] + part, seq![factors[i]] + left, old, correlation_threshold(limits));
        lemma_list_trans(new, seq![output] + part, old, correlation_threshold(limits));
    } else {
        if steps > 0 {
            assert forall|i: int| 0 <= i < factors.len() implies !#[trigger] remaining[i] by {
                assert(keys[i] is None);
            }
            lemma_none_flagged(factors, remaining);
        }
        assert(old =~= new);
        lemma_improves_self(world, old, types, correlation_threshold(limits));
    }
}

/// The joins of the connected factors: the solutions.
#[verifier::spinoff_prover]
pub proof fn lemma_components_eval(
    world: World,
    factors: Seq<Plan>,
    remaining: Seq<bool>,
    types: Types,
    limits: Limits,
    rec: Reordering,
    steps: nat,
    input: Solution,
    sure: Names,
    outside: Names,
    late: Names,
)
    requires
        regular(world),
        good(world, rec, correlation_threshold(limits)),
        remaining.len() == factors.len(),
        flagged(factors, remaining, true).len() <= steps,
        each_once(world, joined_paths(flagged(factors, remaining, true))),
        placed(input, types, outside),
        sure.subset_of(input.dom()),
        all_joined_scoped(flagged(factors, remaining, true), sure, outside, late, correlation_threshold(limits)),
    ensures
        same(
            eval_join(
                world,
                components(factors, remaining, types, limits, rec, steps),
                input,
            ),
            eval_join(world, flagged(factors, remaining, true), input),
        ),
    decreases steps,
{
    let old = flagged(factors, remaining, true);
    let keys = entry_keys(factors, remaining, types, limits);
    lemma_least(keys);
    let new = components(factors, remaining, types, limits, rec, steps);
    if steps > 0 && least(keys) is Some {
        let i = least(keys).unwrap();
        let factor = factors[i];
        let after = remaining.update(i, false);
        let left = flagged(factors, after, true);
        let t = infer(factor, types);
        let n = factors.len();
        let (output, rest) = grow(factors, factor, t, after, types, limits, rec, n);
        let next = (steps - 1) as nat;
        let start = seq![factor] + left;
        lemma_infer_distinct(factor, types);
        lemma_take_remaining(factors, remaining, i);
        lemma_improves_bag(world, start, old, types, correlation_threshold(limits));
        lemma_eval_join_bag(world, start, old, input);
        assert(all_joined_scoped(start, sure, outside, late, correlation_threshold(limits)));
        lemma_scoped_split(seq![factor], left, sure, outside, late, correlation_threshold(limits));
        let wide = late.union(plans_variables(left));
        lemma_one_scoped(factor, sure, outside, wide, correlation_threshold(limits));
        lemma_scoped_hygienic(factor, sure, outside, wide, correlation_threshold(limits));
        assert forall|s: Solution| #[trigger] eval(world, factor, input).contains(s) implies
            has_types(s, t) by {
            lemma_solution_placed(world, factor, input, types, outside, s);
        }
        lemma_grow_tamed(world, factors, factor, t, after, types, limits, rec, n);
        lemma_remaining_once(world, factors, remaining, i);
        lemma_grow_eval(
            world,
            factors,
            factor,
            t,
            after,
            types,
            limits,
            rec,
            n,
            input,
            sure,
            outside,
            late,
        );
        let part = flagged(factors, rest, true);
        let more = components(factors, rest, types, limits, rec, next);
        assert(all_joined_scoped(seq![output] + part, sure, outside, late, correlation_threshold(limits)));
        lemma_names_concat(seq![output], part);
        lemma_once_less(world, joined_paths(start), joined_paths(old));
        lemma_once_less(world, joined_paths(part), joined_paths(start));
        lemma_scoped_split(seq![output], part, sure, outside, late, correlation_threshold(limits));
        lemma_components_eval(
            world,
            factors,
            rest,
            types,
            limits,
            rec,
            next,
            input,
            sure,
            outside,
            late.union(plans_variables(seq![output])),
        );
        lemma_eval_join_concat(world, seq![output], more, input);
        lemma_eval_join_concat(world, seq![output], part, input);
        let o = eval_join(world, seq![output], input);
        lemma_join_same(
            o,
            eval_join(world, more, input),
            o,
            eval_join(world, part, input),
        );
    } else {
        if steps > 0 {
            assert forall|i: int| 0 <= i < factors.len() implies !#[trigger] remaining[i] by {
                assert(keys[i] is None);
            }
            lemma_none_flagged(factors, remaining);
        }
        assert(old =~= new);
    }
}

pub proof fn lemma_crossed_improves(
    world: World,
    outputs: Seq<Plan>,
    types: Types,
    limits: Limits,
)
    requires
        regular(world),
    ensures
        improves(world, seq![crossed(outputs, types, limits)], outputs, types, correlation_threshold(limits)),
    decreases outputs.len(),
{
    let new = crossed(outputs, types, limits);
    if outputs.len() == 0 {
        lemma_joined_improves(world, outputs, types, correlation_threshold(limits));
    } else if outputs.len() == 1 {
        assert(seq![new] =~= outputs);
        lemma_improves_self(world, outputs, types, correlation_threshold(limits));
    } else {
        let shorter = outputs.drop_last();
        let (a, b) = (crossed(shorter, types, limits), outputs.last());
        let keys = join_keys(infer(a, types), infer(b, types), types);
        lemma_crossed_improves(world, shorter, types, limits);
        lemma_join_improves(world, a, b, keys, types, correlation_threshold(limits));
        lemma_join_improves(world, b, a, keys, types, correlation_threshold(limits));
        lemma_same_swap(seq![b], seq![a]);
        assert(seq![b] + seq![a] =~= seq![b, a]);
        assert(seq![a] + seq![b] =~= seq![a, b]);
        lemma_improves_bag(world, seq![b, a], seq![a, b], types, correlation_threshold(limits));
        lemma_improves_trans(world, seq![join(b, a, keys)], seq![b, a], seq![a, b], types, correlation_threshold(limits));
        lemma_improves_self(world, seq![b], types, correlation_threshold(limits));
        lemma_improves_concat(world, seq![a], shorter, seq![b], seq![b], types, correlation_threshold(limits));
        assert(shorter + seq![b] =~= outputs);
        lemma_improves_trans(world, seq![new], seq![a, b], outputs, types, correlation_threshold(limits));
    }
}

/// Some joined plans in a good order stand for them.
pub proof fn lemma_greedy_improves(
    world: World,
    factors: Seq<Plan>,
    types: Types,
    limits: Limits,
    rec: Reordering,
)
    requires
        regular(world),
        good(world, rec, correlation_threshold(limits)),
    ensures
        improves(world, seq![greedy_join(factors, types, limits, rec)], factors, types, correlation_threshold(limits)),
{
    if distinct_variables(types) {
        let n = factors.len();
        let all = everything_remains(n);
        let parts = components(factors, all, types, limits, rec, n);
        lemma_all_flagged(factors, all);
        lemma_components_tamed(world, factors, all, types, limits, rec, n);
        assert forall|input: Solution, sure: Names, outside: Names, late: Names| #[trigger]
            agrees(world, parts, factors, types, input, sure, outside, late, correlation_threshold(limits)) by {
            if each_once(world, joined_paths(factors)) && placed(input, types, outside)
                && sure.subset_of(input.dom()) && all_joined_scoped(
                factors,
                sure,
                outside,
                late,
                correlation_threshold(limits),
            ) {
                lemma_components_eval(
                    world,
                    factors,
                    all,
                    types,
                    limits,
                    rec,
                    n,
                    input,
                    sure,
                    outside,
                    late,
                );
            }
        }
        lemma_crossed_improves(world, parts, types, limits);
        lemma_improves_trans(
            world,
            seq![greedy_join(factors, types, limits, rec)],
            parts,
            factors,
            types,
            correlation_threshold(limits),
        );
    }
}

} // verus!
