//! Reordering each operator does not change the solutions.

use vstd::prelude::*;

use crate::algebra::{AggregateExpr, Expr, OrderExpr, Plan};
use crate::bags::{
    keep, lemma_gather_equal, lemma_gather_same, lemma_gather_single, lemma_once_order,
    lemma_same_items, same,
};
use crate::builders::{
    distinct, empty_singleton, extend, filter, group, join, known_truth, lateral, left_join, minus,
    order_by, project, reduced, slice, truth, union_all,
};
use crate::congruence::{
    lemma_extend_same, lemma_filter_same, lemma_group_same, lemma_lateral_same,
    lemma_left_join_same, lemma_match_same, lemma_minus_same, lemma_project_same, lemma_union_same,
    lemma_without_same,
};
use crate::estimate::plan_size;
use crate::eval_basics::lemma_contains_index;
use crate::exists_laws::{lemma_reorder_exists, lemma_reorder_exists_tamer};
use crate::factoring::{all_joined_scoped, lemma_names_concat, lemma_one, lemma_scoped_concat};
use crate::factors::join_factors;
use crate::for_loop::fits;
use crate::joins::lemma_eval_join_one;
use crate::limits::Limits;
use crate::lookups::{correlation_threshold, has_subclass_path, have_common_variable, join_keys};
use crate::loops::lemma_joined_again;
use crate::normalize_laws::{lemma_hidden_less, lemma_solution_placed, placed};
use crate::ordering_laws::{good, lemma_loop_item, lemma_loop_scoped};
use crate::plan_laws::{
    lemma_distinct, lemma_eval_extends, lemma_extend, lemma_filter, lemma_gather_items, lemma_group,
    lemma_known_condition, lemma_lateral, lemma_left_join, lemma_minus, lemma_order_by,
    lemma_singleton, lemma_slice, lemma_union_all,
};
use crate::plan_taming::{
    lemma_extend_parts, lemma_filter_parts, lemma_filter_tamer, lemma_group_parts,
    lemma_group_tamer, lemma_lateral_parts, lemma_lateral_tamer, lemma_left_join_parts,
    lemma_left_join_tamer, lemma_minus_parts, lemma_minus_tamer, lemma_project_parts,
    lemma_singleton_binds, lemma_tamer_self, lemma_union_all_parts, lemma_wrapper_parts,
    lemma_wrappers_tamer,
};
use crate::reorder::{
    optimize_with, reorder_each, reorder_exists, reorder_join, reorder_left_join, reorder_step,
    Reordering,
};
use crate::reorder_laws::lemma_reorder_join_improves;
use crate::rewrites::{has_one_singleton, singleton_others};
use crate::rewriting::{
    agrees, better, each_once, improves, lemma_better_one, lemma_better_trans,
    lemma_improves_concat, lemma_improves_self, lemma_improves_trans, lemma_join_improves,
    lemma_nest_improves, lemma_once_less, lemma_one_scoped, lemma_one_tamed, preserved,
};
use crate::rewriting_unions::{
    lemma_eval_two, lemma_singleton_contains, lemma_singleton_union, lemma_split_improves,
};
use crate::scope::{binds, lemma_eval_binds};
use crate::scoping::{
    all_loose, all_paths, all_scoped, all_steady, does_nothing, exposed, expr_paths,
    hidden_variables, joined_paths, lemma_bare, lemma_plain_expr_paths, lemma_right_scoped,
    lemma_scoped_expr_more, lemma_scoped_hygienic, lemma_steady_more, plain, plan_paths, scoped,
    steady, waits, worked, Names, Paths, Trace,
};
use crate::semantics::{condition, eval, evaluator, holds, matcher, regular, World};
use crate::solutions::{
    compatible, extends, joined_bags, joined_with, lemma_extends_merge, lemma_joined_with_contains,
    merge, Solution,
};
use crate::taming::{all_tamer, lemma_tamer_trans, tamer, tamer_condition, tamer_expr};
use crate::type_inference::{distinct_variables, infer, Types};
use crate::type_laws::lemma_infer_distinct;
use crate::variables::{expr_variables, plan_variables};

verus! {

/// A union with one row without values gives back what it is joined with.
proof fn lemma_singleton_matches(world: World, right: Plan, input: Solution, s: Solution)
    requires
        regular(world),
        has_one_singleton(right),
        extends(s, input),
    ensures
        joined_with(s, eval(world, right, input)).len() > 0,
{
    let r = eval(world, right, input);
    lemma_singleton_contains(world, right, input);
    let k = choose|k: int| 0 <= k < r.len() && r[k] == input;
    lemma_extends_merge(s, input);
    assert(compatible(s, r[k]) && s == merge(s, r[k]));
    lemma_joined_with_contains(s, r, s);
    assert(joined_with(s, r).contains(s));
}

/// A left join on no condition with a side that always matches is a join.
proof fn lemma_left_join_is_join(
    world: World,
    left: Plan,
    right: Plan,
    expression: Expr,
    keys: Seq<Seq<char>>,
    input: Solution,
)
    requires
        regular(world),
        has_one_singleton(right),
        known_truth(expression) == Some(true),
    ensures
        eval(
            world,
            (Plan::LeftJoin { left: Box::new(left), right: Box::new(right), expression, keys }),
            input,
        ) == joined_bags(eval(world, left, input), eval(world, right, input)),
{
    let (l, r) = (eval(world, left, input), eval(world, right, input));
    let f = |s: Solution| joined_with(s, r);
    lemma_eval_extends(world, left, input);
    assert forall|i: int| 0 <= i < l.len() implies matcher(world, expression, r)(
        #[trigger] l[i],
    ) == f(l[i]) by {
        let s = l[i];
        assert(extends(s, input));
        lemma_singleton_matches(world, right, input, s);
        let m = joined_with(s, r);
        let g = |x: Solution|
            if condition(world, expression)(x) {
                seq![x]
            } else {
                seq![]
            };
        assert forall|k: int| 0 <= k < m.len() implies g(#[trigger] m[k]) == seq![m[k]] by {
            lemma_known_condition(world, expression, true, m[k]);
        }
        lemma_gather_items(m, g);
        assert(keep(m, condition(world, expression)) == m);
    }
    lemma_gather_equal(l, matcher(world, expression, r), f);
}

/// What stands for the join of two plans stands for their left join, where the
/// right side always matches.
proof fn lemma_left_join_better(
    world: World,
    new: Plan,
    left: Plan,
    right: Plan,
    expression: Expr,
    keys: Seq<Seq<char>>,
    types: Types,
    threshold: nat,
)
    requires
        regular(world),
        has_one_singleton(right),
        known_truth(expression) == Some(true),
        improves(world, seq![new], seq![left, right], types, threshold),
    ensures
        better(
            world,
            new,
            (Plan::LeftJoin { left: Box::new(left), right: Box::new(right), expression, keys }),
            types,
            threshold,
        ),
{
    let old = Plan::LeftJoin { left: Box::new(left), right: Box::new(right), expression, keys };
    let pair = seq![left, right];
    if distinct_variables(types) {
        lemma_singleton_union(right, threshold);
        assert(pair =~= seq![left] + seq![right]);
        lemma_names_concat(seq![left], seq![right]);
        lemma_one(left);
        lemma_one(right);
        lemma_one(new);
        lemma_one_tamed(new, pair, threshold);
        assert forall|sure: Names, outside: Names, late: Names|
            #![trigger scoped(old, sure, outside, late, threshold)]
            scoped(old, sure, outside, late, threshold) implies all_joined_scoped(
            pair,
            sure,
            outside,
            late,
            threshold,
        ) by {
            let (l, r) = (plan_variables(left), plan_variables(right));
            lemma_right_scoped(left, right, expression, keys, sure, outside, late, threshold);
            lemma_one_scoped(left, sure, outside, late.union(r), threshold);
            lemma_one_scoped(right, sure, outside, late.union(l), threshold);
            lemma_scoped_concat(seq![left], seq![right], sure, outside, late, threshold);
        }
        assert(tamer(new, old, threshold)) by {
            assert forall|late: Names, sure: Names| steady(old, late, sure) implies
                #[trigger] steady(new, late, sure) by {
                assert(steady(pair[0], late, sure) && steady(pair[1], late, sure));
                assert(all_steady(pair, late, sure));
            }
            assert forall|sure: Names, outside: Names, late: Names|
                scoped(old, sure, outside, late, threshold) implies #[trigger] scoped(
                new,
                sure,
                outside,
                late,
                threshold,
            ) by {
                assert(all_joined_scoped(pair, sure, outside, late, threshold));
            }
        }
        assert forall|input: Solution, sure: Names, outside: Names, late: Names| #[trigger]
            preserved(world, new, old, types, input, sure, outside, late, threshold) by {
            if each_once(world, plan_paths(old)) && scoped(old, sure, outside, late, threshold) {
                lemma_once_less(world, joined_paths(pair), plan_paths(old));
                assert(agrees(
                    world,
                    seq![new],
                    pair,
                    types,
                    input,
                    sure,
                    outside,
                    late,
                    threshold,
                ));
                lemma_eval_join_one(world, new, input);
                lemma_eval_two(world, left, right, input);
                lemma_left_join_is_join(world, left, right, expression, keys, input);
            }
        }
    }
}

/// A left join in a loop over its left side keeps the scopes in order.
#[verifier::spinoff_prover]
proof fn lemma_loop_left_join_tamer(
    left: Plan,
    right: Plan,
    expression: Expr,
    keys: Seq<Seq<char>>,
    global: Types,
    entry: Types,
    size: nat,
    limits: Limits,
)
    requires
        fits(right, global, entry, size, limits),
        distinct_variables(global),
        distinct_variables(entry),
    ensures
        tamer(
            lateral(left, left_join(empty_singleton(), right, expression, seq![])),
            (Plan::LeftJoin { left: Box::new(left), right: Box::new(right), expression, keys }),
            correlation_threshold(limits),
        ),
{
    let none = Set::<Seq<char>>::empty();
    let one = empty_singleton();
    let old = Plan::LeftJoin { left: Box::new(left), right: Box::new(right), expression, keys };
    let inner = Plan::LeftJoin {
        left: Box::new(one),
        right: Box::new(right),
        expression,
        keys: seq![],
    };
    let built = left_join(one, right, expression, seq![]);
    let raw = Plan::Lateral { left: Box::new(left), right: Box::new(inner) };
    let (l, r) = (plan_variables(left), plan_variables(right));
    let (b, c) = (binds(left), binds(right));
    let w = expr_variables(expression);
    lemma_singleton_binds(one);
    assert(plan_variables(one) =~= none);
    assert(tamer(raw, old, correlation_threshold(limits))) by {
        assert(plan_variables(inner) =~= r.union(w));
        assert(binds(inner) =~= none);
        assert(plan_paths(one) =~= Set::<(Trace, bool)>::empty());
        assert(plan_paths(inner) =~= plan_paths(right).union(expr_paths(expression)).union(
            all_loose(w.difference(c)),
        ).union(worked()));
        if plain(old) {
            lemma_bare(right);
            assert forall|v: Seq<char>| !#[trigger] hidden_variables(inner).contains(v) by {
                lemma_plain_expr_paths(expression);
                assert(!hidden_variables(right).contains(v));
            }
            assert(plain(one));
            assert(plain(inner));
        }
        assert(!has_subclass_path(one));
        assert(has_subclass_path(inner) == has_subclass_path(right));
        assert forall|late: Names, sure: Names| steady(old, late, sure) implies #[trigger] steady(
            raw,
            late,
            sure,
        ) by {
            lemma_steady_more(right, late, sure, late, sure.union(b));
            assert(sure.union(b).union(none) =~= sure.union(b));
            assert(steady(one, late, sure.union(b)));
            assert(steady(inner, late, sure.union(b)));
        }
        assert forall|sure: Names, outside: Names, late: Names|
            scoped(old, sure, outside, late, correlation_threshold(limits)) implies #[trigger] scoped(
            raw,
            sure,
            outside,
            late,
            correlation_threshold(limits),
        ) by {
            let sure2 = sure.union(b);
            let outside2 = outside.union(l);
            assert(late.union(none) =~= late);
            assert(sure2.union(none) =~= sure2);
            lemma_loop_scoped(
                left,
                right,
                global,
                entry,
                size,
                limits,
                sure,
                outside.union(late),
                late,
                sure2,
                late,
            );
            assert(outside.union(late).union(l) =~= outside2.union(late));
            if late != none {
                let few = exposed(left, right, late.difference(sure));
                let few2 = exposed(one, right, late.difference(sure2));
                lemma_steady_more(right, few, sure, few2, sure2);
                assert(waits(one, right, sure2, outside2, late));
            }
            assert(scoped(one, sure2, outside2, late, correlation_threshold(limits)));
            assert(scoped(one, sure2, outside2, late.union(r), correlation_threshold(limits)));
            lemma_scoped_expr_more(
                expression,
                sure2.union(c),
                outside.union(late).union(l).union(r),
                sure2.union(c),
                outside2.union(late).union(none).union(r),
                correlation_threshold(limits),
            );
            assert(scoped(inner, sure2, outside2, late, correlation_threshold(limits)));
        }
    }
    lemma_left_join_tamer(one, right, expression, seq![], correlation_threshold(limits));
    lemma_tamer_self(left, correlation_threshold(limits));
    lemma_lateral_parts(left, built, left, inner, correlation_threshold(limits));
    lemma_lateral_tamer(left, built, correlation_threshold(limits));
    let middle = Plan::Lateral { left: Box::new(left), right: Box::new(built) };
    lemma_tamer_trans(lateral(left, built), middle, raw, correlation_threshold(limits));
    lemma_tamer_trans(lateral(left, built), raw, old, correlation_threshold(limits));
}

/// A left join in a loop over its left side has the same solutions.
proof fn lemma_loop_left_join_eval(
    world: World,
    left: Plan,
    right: Plan,
    expression: Expr,
    keys: Seq<Seq<char>>,
    types: Types,
    size: nat,
    limits: Limits,
    input: Solution,
    sure: Names,
    outside: Names,
    late: Names,
)
    requires
        regular(world),
        fits(right, types, infer(left, types), size, limits),
        each_once(
            world,
            plan_paths(
                (Plan::LeftJoin { left: Box::new(left), right: Box::new(right), expression, keys }),
            ),
        ),
        placed(input, types, outside),
        sure.subset_of(input.dom()),
        scoped(
            (Plan::LeftJoin { left: Box::new(left), right: Box::new(right), expression, keys }),
            sure,
            outside,
            late,
            correlation_threshold(limits),
        ),
    ensures
        same(
            eval(
                world,
                lateral(left, left_join(empty_singleton(), right, expression, seq![])),
                input,
            ),
            eval(
                world,
                (Plan::LeftJoin { left: Box::new(left), right: Box::new(right), expression, keys }),
                input,
            ),
        ),
{
    let old = Plan::LeftJoin { left: Box::new(left), right: Box::new(right), expression, keys };
    let built = left_join(empty_singleton(), right, expression, seq![]);
    let lt = infer(left, types);
    let (l, r) = (eval(world, left, input), eval(world, right, input));
    lemma_lateral(world, left, built, input);
    lemma_infer_distinct(left, types);
    lemma_scoped_hygienic(left, sure, outside, late, correlation_threshold(limits));
    lemma_right_scoped(
        left,
        right,
        expression,
        keys,
        sure,
        outside,
        late,
        correlation_threshold(limits),
    );
    lemma_once_less(world, plan_paths(right), plan_paths(old));
    assert(better(world, right, right, lt, correlation_threshold(limits))) by {
        lemma_tamer_self(right, correlation_threshold(limits));
    }
    assert forall|i: int| 0 <= i < l.len() implies same(
        evaluator(world, built)(#[trigger] l[i]),
        matcher(world, expression, r)(l[i]),
    ) by {
        let s = l[i];
        lemma_contains_index(l, i);
        lemma_solution_placed(world, left, input, types, outside, s);
        lemma_loop_item(
            world,
            left,
            right,
            right,
            types,
            lt,
            size,
            limits,
            input,
            sure,
            outside,
            late,
            s,
        );
        let (x, y) = (eval(world, right, s), joined_with(s, r));
        lemma_left_join(world, empty_singleton(), right, expression, seq![], s);
        lemma_singleton(world, empty_singleton(), s);
        lemma_gather_single(s, matcher(world, expression, x));
        lemma_joined_again(s, s, r);
        lemma_match_same(world, s, x, y, expression, expression);
        assert(matcher(world, expression, y)(s) == matcher(world, expression, r)(s));
    }
    lemma_gather_same(l, evaluator(world, built), matcher(world, expression, r));
}

/// A left join with other keys.
proof fn lemma_left_join_keys(
    world: World,
    left: Plan,
    right: Plan,
    expression: Expr,
    keys: Seq<Seq<char>>,
    old_keys: Seq<Seq<char>>,
    types: Types,
    threshold: nat,
)
    requires
        regular(world),
    ensures
        better(
            world,
            left_join(left, right, expression, keys),
            (Plan::LeftJoin {
                left: Box::new(left),
                right: Box::new(right),
                expression,
                keys: old_keys,
            }),
            types,
            threshold,
        ),
{
    let raw = Plan::LeftJoin { left: Box::new(left), right: Box::new(right), expression, keys };
    let old = Plan::LeftJoin {
        left: Box::new(left),
        right: Box::new(right),
        expression,
        keys: old_keys,
    };
    let new = left_join(left, right, expression, keys);
    lemma_left_join_tamer(left, right, expression, keys, threshold);
    lemma_tamer_self(left, threshold);
    lemma_tamer_self(right, threshold);
    lemma_left_join_parts(
        left,
        right,
        expression,
        keys,
        left,
        right,
        expression,
        old_keys,
        threshold,
    );
    lemma_tamer_trans(new, raw, old, threshold);
    assert forall|input: Solution, sure: Names, outside: Names, late: Names| #[trigger]
        preserved(world, new, old, types, input, sure, outside, late, threshold) by {
        lemma_left_join(world, left, right, expression, keys, input);
    }
}

/// A reordered left join stands for the left join.
pub proof fn lemma_reorder_left_join_better(
    world: World,
    left: Plan,
    right: Plan,
    expression: Expr,
    keys: Seq<Seq<char>>,
    types: Types,
    limits: Limits,
)
    requires
        regular(world),
    ensures
        better(
            world,
            reorder_left_join(left, right, expression, types, limits),
            (Plan::LeftJoin { left: Box::new(left), right: Box::new(right), expression, keys }),
            types,
            correlation_threshold(limits),
        ),
{
    let old = Plan::LeftJoin { left: Box::new(left), right: Box::new(right), expression, keys };
    let (lt, rt) = (infer(left, types), infer(right, types));
    let new_keys = join_keys(lt, rt, types);
    let size = plan_size(left, types, limits);
    lemma_left_join_keys(world, left, right, expression, new_keys, keys, types, correlation_threshold(limits));
    if known_truth(expression) == Some(true) && has_one_singleton(right) {
        let rest = union_all(singleton_others(right));
        let k = join_keys(infer(left, types), infer(rest, types), types);
        lemma_improves_self(world, seq![left], types, correlation_threshold(limits));
        lemma_join_improves(world, left, rest, k, types, correlation_threshold(limits));
        assert(seq![left].push(rest) =~= seq![left, rest]);
        assert(seq![left].push(right) =~= seq![left, right]);
        let together = join(left, rest, k);
        lemma_split_improves(world, seq![left], right, left, together, types, correlation_threshold(limits));
        let both = union_all(seq![left, together]);
        lemma_left_join_better(world, both, left, right, expression, keys, types, correlation_threshold(limits));
        if singleton_others(right).len() == 0 {
            lemma_left_join_better(world, left, left, right, expression, keys, types, correlation_threshold(limits));
        }
    } else if fits(right, types, lt, size, limits) && have_common_variable(lt, rt, types) {
        let new = lateral(left, left_join(empty_singleton(), right, expression, seq![]));
        if distinct_variables(types) {
            lemma_infer_distinct(left, types);
            lemma_loop_left_join_tamer(left, right, expression, keys, types, lt, size, limits);
            assert forall|input: Solution, sure: Names, outside: Names, late: Names| #[trigger]
                preserved(world, new, old, types, input, sure, outside, late, correlation_threshold(limits)) by {
                if each_once(world, plan_paths(old)) && placed(input, types, outside)
                    && sure.subset_of(input.dom()) && scoped(old, sure, outside, late, correlation_threshold(limits)) {
                    lemma_loop_left_join_eval(
                        world,
                        left,
                        right,
                        expression,
                        keys,
                        types,
                        size,
                        limits,
                        input,
                        sure,
                        outside,
                        late,
                    );
                }
            }
        }
    }
}

/// What is known of a reordered part of a plan.
proof fn lemma_part_preserved(
    world: World,
    part: Plan,
    types: Types,
    rec: Reordering,
    paths: Paths,
    input: Solution,
    sure: Names,
    outside: Names,
    late: Names,
    threshold: nat,
)
    requires
        good(world, rec, threshold),
        each_once(world, paths),
        plan_paths(part).subset_of(paths),
        placed(input, types, outside),
        sure.subset_of(input.dom()),
        scoped(part, sure, outside, late, threshold),
    ensures
        same(eval(world, rec(part, types), input), eval(world, part, input)),
{
    let new = rec(part, types);
    assert(better(world, new, part, types, threshold));
    lemma_once_less(world, plan_paths(part), paths);
    assert(preserved(world, new, part, types, input, sure, outside, late, threshold));
}

proof fn lemma_step_join(
    world: World,
    left: Plan,
    right: Plan,
    keys: Seq<Seq<char>>,
    types: Types,
    limits: Limits,
    rec: Reordering,
)
    requires
        regular(world),
        good(world, rec, correlation_threshold(limits)),
    ensures
        better(
            world,
            reorder_join(left, right, types, limits, rec),
            (Plan::Join { left: Box::new(left), right: Box::new(right), keys }),
            types,
            correlation_threshold(limits),
        ),
{
    let old = Plan::Join { left: Box::new(left), right: Box::new(right), keys };
    let new = reorder_join(left, right, types, limits, rec);
    let fs = join_factors(old);
    let pair = seq![left, right];
    lemma_reorder_join_improves(world, left, right, types, limits, rec);
    lemma_nest_improves(world, left, types, correlation_threshold(limits));
    lemma_nest_improves(world, right, types, correlation_threshold(limits));
    lemma_improves_concat(
        world,
        seq![left],
        join_factors(left),
        seq![right],
        join_factors(right),
        types,
        correlation_threshold(limits),
    );
    assert(seq![left] + seq![right] =~= pair);
    assert(join_factors(left) + join_factors(right) =~= fs);
    lemma_nest_improves(world, old, types, correlation_threshold(limits));
    lemma_improves_trans(world, pair, fs, seq![old], types, correlation_threshold(limits));
    lemma_improves_trans(world, seq![new], pair, seq![old], types, correlation_threshold(limits));
    lemma_better_one(world, new, old, types, correlation_threshold(limits));
}

proof fn lemma_step_lateral(
    world: World,
    left: Plan,
    right: Plan,
    types: Types,
    rec: Reordering,
    threshold: nat,
)
    requires
        regular(world),
        good(world, rec, threshold),
    ensures
        better(
            world,
            lateral(rec(left, types), rec(right, infer(left, types))),
            (Plan::Lateral { left: Box::new(left), right: Box::new(right) }),
            types,
            threshold,
        ),
{
    let old = Plan::Lateral { left: Box::new(left), right: Box::new(right) };
    let lt = infer(left, types);
    let (l, r) = (rec(left, types), rec(right, lt));
    let raw = Plan::Lateral { left: Box::new(l), right: Box::new(r) };
    let new = lateral(l, r);
    if distinct_variables(types) {
        lemma_infer_distinct(left, types);
        assert(better(world, l, left, types, threshold));
        assert(better(world, r, right, lt, threshold));
        lemma_lateral_parts(l, r, left, right, threshold);
        lemma_lateral_tamer(l, r, threshold);
        lemma_tamer_trans(new, raw, old, threshold);
        assert forall|input: Solution, sure: Names, outside: Names, late: Names| #[trigger]
            preserved(world, new, old, types, input, sure, outside, late, threshold) by {
            if each_once(world, plan_paths(old)) && placed(input, types, outside)
                && sure.subset_of(input.dom()) && scoped(old, sure, outside, late, threshold) {
                let paths = plan_paths(old);
                lemma_part_preserved(
                    world,
                    left,
                    types,
                    rec,
                    paths,
                    input,
                    sure,
                    outside,
                    late,
                    threshold,
                );
                lemma_scoped_hygienic(left, sure, outside, late, threshold);
                let (x, y) = (eval(world, l, input), eval(world, left, input));
                let wide = outside.union(plan_variables(left));
                assert forall|s: Solution| #[trigger] y.contains(s) implies same(
                    eval(world, r, s),
                    eval(world, right, s),
                ) by {
                    lemma_solution_placed(world, left, input, types, outside, s);
                    lemma_eval_binds(world, left, input, s);
                    lemma_solution_extends(world, left, input, s);
                    let sure2 = sure.union(binds(left));
                    lemma_part_preserved(
                        world,
                        right,
                        lt,
                        rec,
                        paths,
                        s,
                        sure2,
                        wide,
                        late,
                        threshold,
                    );
                }
                lemma_lateral_same(world, x, y, r, right);
                lemma_lateral(world, l, r, input);
            }
        }
    }
}

proof fn lemma_solution_extends(world: World, plan: Plan, input: Solution, s: Solution)
    requires
        regular(world),
        eval(world, plan, input).contains(s),
    ensures
        extends(s, input),
        input.dom().subset_of(s.dom()),
{
    let all = eval(world, plan, input);
    lemma_eval_extends(world, plan, input);
    let k = choose|k: int| 0 <= k < all.len() && all[k] == s;
    assert(extends(all[k], input));
}

proof fn lemma_step_left_join(
    world: World,
    left: Plan,
    right: Plan,
    expression: Expr,
    keys: Seq<Seq<char>>,
    types: Types,
    limits: Limits,
    rec: Reordering,
)
    requires
        regular(world),
        good(world, rec, correlation_threshold(limits)),
    ensures
        better(
            world,
            reorder_left_join(rec(left, types), rec(right, types), expression, types, limits),
            (Plan::LeftJoin { left: Box::new(left), right: Box::new(right), expression, keys }),
            types,
            correlation_threshold(limits),
        ),
{
    let old = Plan::LeftJoin { left: Box::new(left), right: Box::new(right), expression, keys };
    let (l, r) = (rec(left, types), rec(right, types));
    let raw = Plan::LeftJoin { left: Box::new(l), right: Box::new(r), expression, keys };
    lemma_reorder_left_join_better(world, l, r, expression, keys, types, limits);
    assert(better(world, raw, old, types, correlation_threshold(limits))) by {
        if distinct_variables(types) {
            assert(better(world, l, left, types, correlation_threshold(limits)));
            assert(better(world, r, right, types, correlation_threshold(limits)));
            assert(tamer_condition(expression, expression, correlation_threshold(limits)));
            lemma_left_join_parts(l, r, expression, keys, left, right, expression, keys, correlation_threshold(limits));
            assert forall|input: Solution, sure: Names, outside: Names, late: Names| #[trigger]
                preserved(world, raw, old, types, input, sure, outside, late, correlation_threshold(limits)) by {
                if each_once(world, plan_paths(old)) && placed(input, types, outside)
                    && sure.subset_of(input.dom()) && scoped(old, sure, outside, late, correlation_threshold(limits)) {
                    let paths = plan_paths(old);
                    lemma_right_scoped(
                        left,
                        right,
                        expression,
                        keys,
                        sure,
                        outside,
                        late,
                        correlation_threshold(limits),
                    );
                    lemma_part_preserved(
                        world,
                        left,
                        types,
                        rec,
                        paths,
                        input,
                        sure,
                        outside,
                        late,
                        correlation_threshold(limits),
                    );
                    lemma_part_preserved(
                        world,
                        right,
                        types,
                        rec,
                        paths,
                        input,
                        sure,
                        outside,
                        late.union(plan_variables(left)),
                        correlation_threshold(limits),
                    );
                    lemma_left_join_same(
                        world,
                        eval(world, l, input),
                        eval(world, left, input),
                        eval(world, r, input),
                        eval(world, right, input),
                        expression,
                        expression,
                    );
                }
            }
        }
    }
    lemma_better_trans(
        world,
        reorder_left_join(l, r, expression, types, limits),
        raw,
        old,
        types,
        correlation_threshold(limits),
    );
}

proof fn lemma_step_minus(
    world: World,
    left: Plan,
    right: Plan,
    keys: Seq<Seq<char>>,
    new_keys: Seq<Seq<char>>,
    types: Types,
    rec: Reordering,
    threshold: nat,
)
    requires
        regular(world),
        good(world, rec, threshold),
    ensures
        better(
            world,
            minus(rec(left, types), rec(right, types), new_keys),
            (Plan::Minus { left: Box::new(left), right: Box::new(right), keys }),
            types,
            threshold,
        ),
{
    let old = Plan::Minus { left: Box::new(left), right: Box::new(right), keys };
    let (l, r) = (rec(left, types), rec(right, types));
    let raw = Plan::Minus { left: Box::new(l), right: Box::new(r), keys: new_keys };
    let new = minus(l, r, new_keys);
    if distinct_variables(types) {
        assert(better(world, l, left, types, threshold));
        assert(better(world, r, right, types, threshold));
        lemma_minus_parts(l, r, new_keys, left, right, keys, threshold);
        lemma_minus_tamer(l, r, new_keys, threshold);
        lemma_tamer_trans(new, raw, old, threshold);
        assert forall|input: Solution, sure: Names, outside: Names, late: Names| #[trigger]
            preserved(world, new, old, types, input, sure, outside, late, threshold) by {
            if each_once(world, plan_paths(old)) && placed(input, types, outside)
                && sure.subset_of(input.dom()) && scoped(old, sure, outside, late, threshold) {
                let paths = plan_paths(old);
                let none = Set::<Seq<char>>::empty();
                lemma_part_preserved(
                    world,
                    left,
                    types,
                    rec,
                    paths,
                    input,
                    sure,
                    outside,
                    late,
                    threshold,
                );
                lemma_part_preserved(
                    world,
                    right,
                    types,
                    rec,
                    paths,
                    input,
                    sure,
                    outside,
                    none,
                    threshold,
                );
                lemma_minus(world, l, r, new_keys, input);
                lemma_minus_same(
                    eval(world, l, input),
                    eval(world, left, input),
                    eval(world, r, input),
                    eval(world, right, input),
                    input,
                );
            }
        }
    }
}

proof fn lemma_step_extend(
    world: World,
    inner: Plan,
    variable: Seq<char>,
    expression: Expr,
    types: Types,
    rec: Reordering,
    threshold: nat,
)
    requires
        regular(world),
        good(world, rec, threshold),
    ensures
        better(
            world,
            extend(rec(inner, types), variable, expression),
            (Plan::Extend { inner: Box::new(inner), variable, expression }),
            types,
            threshold,
        ),
{
    let old = Plan::Extend { inner: Box::new(inner), variable, expression };
    let i = rec(inner, types);
    let raw = Plan::Extend { inner: Box::new(i), variable, expression };
    let new = extend(i, variable, expression);
    if distinct_variables(types) {
        assert(better(world, i, inner, types, threshold));
        assert(tamer_expr(expression, expression, threshold));
        lemma_extend_parts(i, variable, expression, inner, expression, threshold);
        lemma_wrappers_tamer(i, variable, expression, seq![], 0, None, threshold);
        lemma_tamer_trans(new, raw, old, threshold);
        assert forall|input: Solution, sure: Names, outside: Names, late: Names| #[trigger]
            preserved(world, new, old, types, input, sure, outside, late, threshold) by {
            if each_once(world, plan_paths(old)) && placed(input, types, outside)
                && sure.subset_of(input.dom()) && scoped(old, sure, outside, late, threshold) {
                let paths = plan_paths(old);
                lemma_part_preserved(
                    world,
                    inner,
                    types,
                    rec,
                    paths,
                    input,
                    sure,
                    outside,
                    late,
                    threshold,
                );
                lemma_extend(world, i, variable, expression, input);
                lemma_extend_same(
                    world,
                    eval(world, i, input),
                    eval(world, inner, input),
                    variable,
                    expression,
                    expression,
                );
            }
        }
    }
}

/// A filter: the solutions.
proof fn lemma_step_filter_eval(
    world: World,
    inner: Plan,
    expression: Expr,
    types: Types,
    limits: Limits,
    rec: Reordering,
    input: Solution,
    sure: Names,
    outside: Names,
    late: Names,
)
    requires
        regular(world),
        good(world, rec, correlation_threshold(limits)),
        each_once(world, plan_paths((Plan::Filter { inner: Box::new(inner), expression }))),
        placed(input, types, outside),
        sure.subset_of(input.dom()),
        scoped((Plan::Filter { inner: Box::new(inner), expression }), sure, outside, late, correlation_threshold(limits)),
    ensures
        ({
            let i = rec(inner, types);
            let e = reorder_exists(expression, infer(i, types), limits, optimize_with(rec));
            same(
                eval(world, filter(i, e), input),
                eval(world, (Plan::Filter { inner: Box::new(inner), expression }), input),
            )
        }),
{
    let old = Plan::Filter { inner: Box::new(inner), expression };
    let i = rec(inner, types);
    let t = infer(i, types);
    let e = reorder_exists(expression, t, limits, optimize_with(rec));
    let paths = plan_paths(old);
    assert(better(world, i, inner, types, correlation_threshold(limits)));
    lemma_part_preserved(world, inner, types, rec, paths, input, sure, outside, late, correlation_threshold(limits));
    assert(scoped(i, sure, outside, late, correlation_threshold(limits)));
    lemma_scoped_hygienic(i, sure, outside, late, correlation_threshold(limits));
    let (x, y) = (eval(world, i, input), eval(world, inner, input));
    lemma_same_items(x, y);
    let wide = outside.union(plan_variables(inner));
    let sure2 = sure.union(binds(inner));
    lemma_once_less(world, expr_paths(expression), paths);
    lemma_scoped_expr_more(
        expression,
        sure2,
        outside.union(late).union(plan_variables(inner)),
        sure2,
        wide,
        correlation_threshold(limits),
    );
    assert forall|s: Solution| #[trigger] y.contains(s) implies holds(world, e, s) == holds(
        world,
        expression,
        s,
    ) by {
        assert(x.contains(s));
        lemma_solution_placed(world, i, input, types, outside, s);
        assert(placed(s, t, wide));
        lemma_reorder_exists(world, expression, t, limits, rec, s, sure2, wide);
    }
    lemma_filter_same(world, x, y, e, expression);
    lemma_filter(world, i, e, input);
}

proof fn lemma_step_filter(
    world: World,
    inner: Plan,
    expression: Expr,
    types: Types,
    limits: Limits,
    rec: Reordering,
)
    requires
        regular(world),
        good(world, rec, correlation_threshold(limits)),
    ensures
        ({
            let i = rec(inner, types);
            let e = reorder_exists(expression, infer(i, types), limits, optimize_with(rec));
            better(
                world,
                filter(i, e),
                (Plan::Filter { inner: Box::new(inner), expression }),
                types,
                correlation_threshold(limits),
            )
        }),
{
    let old = Plan::Filter { inner: Box::new(inner), expression };
    let i = rec(inner, types);
    let t = infer(i, types);
    let e = reorder_exists(expression, t, limits, optimize_with(rec));
    let raw = Plan::Filter { inner: Box::new(i), expression: e };
    let new = filter(i, e);
    if distinct_variables(types) {
        assert(better(world, i, inner, types, correlation_threshold(limits)));
        lemma_infer_distinct(i, types);
        lemma_reorder_exists_tamer(world, expression, t, limits, rec);
        lemma_filter_parts(i, e, inner, expression, correlation_threshold(limits));
        lemma_filter_tamer(i, e, correlation_threshold(limits));
        lemma_tamer_trans(new, raw, old, correlation_threshold(limits));
        assert forall|input: Solution, sure: Names, outside: Names, late: Names| #[trigger]
            preserved(world, new, old, types, input, sure, outside, late, correlation_threshold(limits)) by {
            if each_once(world, plan_paths(old)) && placed(input, types, outside)
                && sure.subset_of(input.dom()) && scoped(old, sure, outside, late, correlation_threshold(limits)) {
                lemma_step_filter_eval(
                    world,
                    inner,
                    expression,
                    types,
                    limits,
                    rec,
                    input,
                    sure,
                    outside,
                    late,
                );
            }
        }
    }
}

proof fn lemma_step_union(
    world: World,
    inner: Seq<Plan>,
    types: Types,
    rec: Reordering,
    threshold: nat,
)
    requires
        regular(world),
        good(world, rec, threshold),
    ensures
        better(
            world,
            union_all(reorder_each(inner, types, rec)),
            (Plan::Union { inner }),
            types,
            threshold,
        ),
{
    let old = Plan::Union { inner };
    let all = reorder_each(inner, types, rec);
    let new = union_all(all);
    if distinct_variables(types) {
        assert forall|i: int| 0 <= i < all.len() implies tamer(#[trigger] all[i], inner[i], threshold) by {
            assert(better(world, rec(inner[i], types), inner[i], types, threshold));
        }
        assert(all_tamer(all, inner, threshold));
        lemma_union_all_parts(all, inner, threshold);
        assert forall|input: Solution, sure: Names, outside: Names, late: Names| #[trigger]
            preserved(world, new, old, types, input, sure, outside, late, threshold) by {
            if each_once(world, plan_paths(old)) && placed(input, types, outside)
                && sure.subset_of(input.dom()) && scoped(old, sure, outside, late, threshold) {
                assert(all_scoped(inner, sure, outside, late, threshold));
                assert forall|i: int| 0 <= i < all.len() implies same(
                    eval(world, #[trigger] all[i], input),
                    eval(world, inner[i], input),
                ) by {
                    assert forall|p: (Trace, bool)| #[trigger] plan_paths(inner[i]).contains(p) implies
                        plan_paths(old).contains(p) by {
                        assert(all_paths(inner).contains(p));
                    }
                    lemma_part_preserved(
                        world,
                        inner[i],
                        types,
                        rec,
                        plan_paths(old),
                        input,
                        sure,
                        outside,
                        late,
                        threshold,
                    );
                }
                lemma_union_same(world, all, inner, input);
                lemma_union_all(world, all, input);
            }
        }
    }
}

proof fn lemma_step_order(
    world: World,
    inner: Plan,
    orders: Seq<OrderExpr>,
    types: Types,
    rec: Reordering,
    threshold: nat,
)
    requires
        regular(world),
        good(world, rec, threshold),
    ensures
        better(
            world,
            order_by(rec(inner, types), orders),
            (Plan::OrderBy { inner: Box::new(inner), expression: orders }),
            types,
            threshold,
        ),
{
    let old = Plan::OrderBy { inner: Box::new(inner), expression: orders };
    let i = rec(inner, types);
    let raw = Plan::OrderBy { inner: Box::new(i), expression: orders };
    let new = order_by(i, orders);
    if distinct_variables(types) {
        assert(better(world, i, inner, types, threshold));
        lemma_wrappers_tamer(i, seq![], truth(true), orders, 0, None, threshold);
        lemma_wrapper_parts(raw, i, old, inner, threshold);
        lemma_tamer_trans(new, raw, old, threshold);
        assert forall|input: Solution, sure: Names, outside: Names, late: Names| #[trigger]
            preserved(world, new, old, types, input, sure, outside, late, threshold) by {
            if each_once(world, plan_paths(old)) && placed(input, types, outside)
                && sure.subset_of(input.dom()) && scoped(old, sure, outside, late, threshold) {
                let paths = plan_paths(old);
                lemma_part_preserved(
                    world,
                    inner,
                    types,
                    rec,
                    paths,
                    input,
                    sure,
                    outside,
                    if does_nothing(old) {
                        late
                    } else {
                        set![]
                    },
                    threshold,
                );
                lemma_order_by(world, i, orders, input);
            }
        }
    }
}

proof fn lemma_step_distinct(
    world: World,
    inner: Plan,
    types: Types,
    rec: Reordering,
    threshold: nat,
)
    requires
        regular(world),
        good(world, rec, threshold),
    ensures
        better(
            world,
            distinct(rec(inner, types)),
            (Plan::Distinct { inner: Box::new(inner) }),
            types,
            threshold,
        ),
        better(
            world,
            reduced(rec(inner, types)),
            (Plan::Reduced { inner: Box::new(inner) }),
            types,
            threshold,
        ),
{
    let (a, b) = (
        Plan::Distinct { inner: Box::new(inner) },
        Plan::Reduced { inner: Box::new(inner) },
    );
    let i = rec(inner, types);
    let (c, d) = (Plan::Distinct { inner: Box::new(i) }, Plan::Reduced { inner: Box::new(i) });
    if distinct_variables(types) {
        assert(better(world, i, inner, types, threshold));
        lemma_wrappers_tamer(i, seq![], truth(true), seq![], 0, None, threshold);
        lemma_wrapper_parts(c, i, a, inner, threshold);
        lemma_wrapper_parts(d, i, b, inner, threshold);
        lemma_tamer_trans(distinct(i), c, a, threshold);
        lemma_tamer_trans(reduced(i), d, b, threshold);
        let none = Set::<Seq<char>>::empty();
        let paths = plan_paths(inner);
        assert forall|input: Solution, sure: Names, outside: Names, late: Names| #[trigger]
            preserved(world, distinct(i), a, types, input, sure, outside, late, threshold) by {
            if each_once(world, paths) && placed(input, types, outside) && sure.subset_of(
                input.dom(),
            ) && scoped(a, sure, outside, late, threshold) {
                lemma_part_preserved(
                    world,
                    inner,
                    types,
                    rec,
                    paths,
                    input,
                    sure,
                    outside,
                    none,
                    threshold,
                );
                lemma_distinct(world, i, input);
                lemma_once_order(eval(world, i, input), eval(world, inner, input));
            }
        }
        assert forall|input: Solution, sure: Names, outside: Names, late: Names| #[trigger]
            preserved(world, reduced(i), b, types, input, sure, outside, late, threshold) by {
            if each_once(world, paths) && placed(input, types, outside) && sure.subset_of(
                input.dom(),
            ) && scoped(b, sure, outside, late, threshold) {
                lemma_part_preserved(
                    world,
                    inner,
                    types,
                    rec,
                    paths,
                    input,
                    sure,
                    outside,
                    none,
                    threshold,
                );
                lemma_distinct(world, i, input);
                lemma_once_order(eval(world, i, input), eval(world, inner, input));
            }
        }
    }
}

proof fn lemma_step_slice(
    world: World,
    inner: Plan,
    start: usize,
    length: Option<usize>,
    types: Types,
    rec: Reordering,
    threshold: nat,
)
    requires
        regular(world),
        good(world, rec, threshold),
    ensures
        better(
            world,
            slice(rec(inner, types), start, length),
            (Plan::Slice { inner: Box::new(inner), start, length }),
            types,
            threshold,
        ),
{
    let old = Plan::Slice { inner: Box::new(inner), start, length };
    let i = rec(inner, types);
    let raw = Plan::Slice { inner: Box::new(i), start, length };
    let new = slice(i, start, length);
    if distinct_variables(types) {
        assert(better(world, i, inner, types, threshold));
        lemma_wrappers_tamer(i, seq![], truth(true), seq![], start, length, threshold);
        lemma_wrapper_parts(raw, i, old, inner, threshold);
        lemma_tamer_trans(new, raw, old, threshold);
        assert forall|input: Solution, sure: Names, outside: Names, late: Names| #[trigger]
            preserved(world, new, old, types, input, sure, outside, late, threshold) by {
            if each_once(world, plan_paths(old)) && placed(input, types, outside)
                && sure.subset_of(input.dom()) && scoped(old, sure, outside, late, threshold) {
                let paths = plan_paths(old);
                lemma_part_preserved(
                    world,
                    inner,
                    types,
                    rec,
                    paths,
                    input,
                    sure,
                    outside,
                    if does_nothing(old) {
                        late
                    } else {
                        set![]
                    },
                    threshold,
                );
                lemma_slice(world, i, start, length, input);
                lemma_without_same(
                    eval(world, i, input),
                    eval(world, inner, input),
                    input.dom(),
                );
            }
        }
    }
}

proof fn lemma_step_project(
    world: World,
    inner: Plan,
    variables: Seq<Seq<char>>,
    types: Types,
    rec: Reordering,
    threshold: nat,
)
    requires
        regular(world),
        good(world, rec, threshold),
    ensures
        better(
            world,
            project(rec(inner, types), variables),
            (Plan::Project { inner: Box::new(inner), variables }),
            types,
            threshold,
        ),
{
    let old = Plan::Project { inner: Box::new(inner), variables };
    let i = rec(inner, types);
    let new = project(i, variables);
    if distinct_variables(types) {
        assert(better(world, i, inner, types, threshold));
        lemma_project_parts(i, variables, inner, threshold);
        let none = Set::<Seq<char>>::empty();
        assert forall|input: Solution, sure: Names, outside: Names, late: Names| #[trigger]
            preserved(world, new, old, types, input, sure, outside, late, threshold) by {
            if each_once(world, plan_paths(old)) && placed(input, types, outside)
                && sure.subset_of(input.dom()) && scoped(old, sure, outside, late, threshold) {
                let paths = plan_paths(old);
                lemma_part_preserved(
                    world,
                    inner,
                    types,
                    rec,
                    paths,
                    input,
                    sure,
                    outside,
                    none,
                    threshold,
                );
                lemma_hidden_less(i, inner, variables, outside, input);
                lemma_project_same(world, i, inner, variables, input);
            }
        }
    }
}

proof fn lemma_step_group(
    world: World,
    inner: Plan,
    variables: Seq<Seq<char>>,
    aggregates: Seq<(Seq<char>, AggregateExpr)>,
    types: Types,
    rec: Reordering,
    threshold: nat,
)
    requires
        regular(world),
        good(world, rec, threshold),
    ensures
        better(
            world,
            group(rec(inner, types), variables, aggregates),
            (Plan::Group { inner: Box::new(inner), variables, aggregates }),
            types,
            threshold,
        ),
{
    let old = Plan::Group { inner: Box::new(inner), variables, aggregates };
    let i = rec(inner, types);
    let raw = Plan::Group { inner: Box::new(i), variables, aggregates };
    let new = group(i, variables, aggregates);
    if distinct_variables(types) {
        assert(better(world, i, inner, types, threshold));
        lemma_group_parts(i, variables, aggregates, inner, threshold);
        lemma_group_tamer(i, variables, aggregates, threshold);
        lemma_tamer_trans(new, raw, old, threshold);
        let none = Set::<Seq<char>>::empty();
        assert forall|input: Solution, sure: Names, outside: Names, late: Names| #[trigger]
            preserved(world, new, old, types, input, sure, outside, late, threshold) by {
            if each_once(world, plan_paths(old)) && placed(input, types, outside)
                && sure.subset_of(input.dom()) && scoped(old, sure, outside, late, threshold) {
                let paths = plan_paths(old);
                lemma_part_preserved(
                    world,
                    inner,
                    types,
                    rec,
                    paths,
                    input,
                    sure,
                    outside,
                    none,
                    threshold,
                );
                lemma_hidden_less(i, inner, variables, outside, input);
                lemma_group(world, i, variables, aggregates, input);
                lemma_group_same(world, i, inner, variables, aggregates, input);
            }
        }
    }
}

/// Reordering the parts of a plan in a good way makes the plan better.
pub proof fn lemma_step_better(
    world: World,
    plan: Plan,
    types: Types,
    limits: Limits,
    rec: Reordering,
)
    requires
        regular(world),
        good(world, rec, correlation_threshold(limits)),
    ensures
        better(world, reorder_step(plan, types, limits, rec), plan, types, correlation_threshold(limits)),
{
    match plan {
        Plan::QuadPattern { .. }
        | Plan::Path { .. }
        | Plan::Values { .. }
        | Plan::Graph { .. }
        | Plan::Service { .. } => {
            lemma_tamer_self(plan, correlation_threshold(limits));
        },
        Plan::Join { left, right, keys } => {
            lemma_step_join(world, *left, *right, keys, types, limits, rec);
        },
        Plan::Lateral { left, right } => {
            lemma_step_lateral(world, *left, *right, types, rec, correlation_threshold(limits));
        },
        Plan::LeftJoin { left, right, expression, keys } => {
            lemma_step_left_join(world, *left, *right, expression, keys, types, limits, rec);
        },
        Plan::Minus { left, right, keys } => {
            let (l, r) = (rec(*left, types), rec(*right, types));
            let new_keys = join_keys(infer(l, types), infer(r, types), types);
            lemma_step_minus(world, *left, *right, keys, new_keys, types, rec, correlation_threshold(limits));
        },
        Plan::Extend { inner, variable, expression } => {
            lemma_step_extend(world, *inner, variable, expression, types, rec, correlation_threshold(limits));
        },
        Plan::Filter { inner, expression } => {
            lemma_step_filter(world, *inner, expression, types, limits, rec);
        },
        Plan::Union { inner } => {
            lemma_step_union(world, inner, types, rec, correlation_threshold(limits));
        },
        Plan::Slice { inner, start, length } => {
            lemma_step_slice(world, *inner, start, length, types, rec, correlation_threshold(limits));
        },
        Plan::Distinct { inner } | Plan::Reduced { inner } => {
            lemma_step_distinct(world, *inner, types, rec, correlation_threshold(limits));
        },
        Plan::Project { inner, variables } => {
            lemma_step_project(world, *inner, variables, types, rec, correlation_threshold(limits));
        },
        Plan::OrderBy { inner, expression } => {
            lemma_step_order(world, *inner, expression, types, rec, correlation_threshold(limits));
        },
        Plan::Group { inner, variables, aggregates } => {
            lemma_step_group(world, *inner, variables, aggregates, types, rec, correlation_threshold(limits));
        },
    }
}

} // verus!
