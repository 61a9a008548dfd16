//! Moving filters down keeps the solutions of a plan.

use vstd::prelude::*;

use crate::algebra::{AggregateExpr, Expr, OrderExpr, Plan};
use crate::bags::{
    gather, keep, lemma_gather_concat, lemma_gather_equal, lemma_gather_order, lemma_gather_same,
    lemma_gather_single, lemma_keep_all, lemma_keep_contains, lemma_keep_equal, lemma_keep_gather,
    lemma_keep_none, lemma_keep_order, lemma_keep_twice, lemma_once_keep, lemma_once_order,
    lemma_same_concat, same,
};
use crate::builders::{
    and_all, distinct, extend, filter, group, join, lateral, left_join, minus, order_by, project,
    reduced, slice, truth, union_all,
};
use crate::congruence::{
    lemma_group_same, lemma_match_same, lemma_minus_same, lemma_project_same, lemma_without_same,
};
use crate::depends::lemma_value_depends;
use crate::eval_basics::lemma_contains_index;
use crate::expr_laws::{lemma_and_all_holds, lemma_and_holds, lemma_known};
use crate::lookups::all_bound;
use crate::normalize_laws::{lemma_hidden_less, lemma_solution_placed, placed};
use crate::origins::lemma_joined_origin;
use crate::plan_laws::{
    lemma_distinct, lemma_eval_extends, lemma_extend, lemma_filter, lemma_group, lemma_join,
    lemma_lateral, lemma_left_join, lemma_minus, lemma_order_by, lemma_slice, lemma_union_all,
};
use crate::plan_taming::{
    lemma_filter_tamer, lemma_group_tamer, lemma_join_tamer, lemma_lateral_tamer,
    lemma_left_join_tamer, lemma_minus_tamer, lemma_union_tamer, lemma_wrappers_tamer,
};
use crate::push_filters::{
    added_filters, bound_filters, doubly_open_filters, filters_with, filters_without,
    is_right_condition, lateral_filter_out, open_filters, push, push_all,
};
use crate::scope::{all_hygienic, hygienic};
use crate::scoping::Names;
use crate::semantics::{
    allowed, condition, eval, eval_all, evaluator, extended, extender, has_types, holds, matcher,
    or_itself, regular, remains, value, World,
};
use crate::solutions::{
    agree, compatible, extends, joined_bags, joined_with, lemma_join_same, lemma_merge_extends,
    lookup, merge, merged, Solution, Term,
};
use crate::taming::{lemma_and_tamer, lemma_part_variables};
use crate::type_inference::{infer, type_of, Types, VariableType};
use crate::variables::{
    aggregate_names, expr_variables, exprs_variables, plan_variables, plans_variables,
};

verus! {

/// Solutions on which all filters hold.
pub open spec fn passes(world: World, filters: Seq<Expr>) -> spec_fn(Solution) -> bool {
    |s: Solution| all_pass(world, filters, s)
}

pub open spec fn all_pass(world: World, filters: Seq<Expr>, s: Solution) -> bool {
    forall|i: int| 0 <= i < filters.len() ==> holds(world, #[trigger] filters[i], s)
}

/// A filter by a built conjunction keeps what passes.
proof fn lemma_passes(world: World, solutions: Seq<Solution>, filters: Seq<Expr>)
    ensures
        keep(solutions, condition(world, and_all(filters))) == keep(
            solutions,
            passes(world, filters),
        ),
{
    let (a, b) = (condition(world, and_all(filters)), passes(world, filters));
    assert forall|i: int| 0 <= i < solutions.len() implies a(#[trigger] solutions[i]) == b(
        solutions[i],
    ) by {
        lemma_and_all_holds(world, filters, solutions[i]);
        assert(a(solutions[i]) == holds(world, and_all(filters), solutions[i]));
        assert(b(solutions[i]) == all_pass(world, filters, solutions[i]));
    }
    lemma_keep_equal(solutions, a, b);
}

/// Some of the filters: those that a test selects.
proof fn lemma_pass_some(
    world: World,
    filters: Seq<Expr>,
    test: spec_fn(Expr) -> bool,
    s: Solution,
)
    ensures
        all_pass(world, filters.filter(test), s) <==> forall|i: int|
            0 <= i < filters.len() && test(filters[i]) ==> holds(world, #[trigger] filters[i], s),
{
    broadcast use vstd::seq_lib::group_filter_ensures;

    let some = filters.filter(test);
    if all_pass(world, some, s) {
        assert forall|i: int| 0 <= i < filters.len() && test(filters[i]) implies holds(
            world,
            #[trigger] filters[i],
            s,
        ) by {
            assert(some.contains(filters[i]));
            let k = choose|k: int| 0 <= k < some.len() && some[k] == filters[i];
            assert(holds(world, some[k], s));
        }
    }
    if forall|i: int|
        0 <= i < filters.len() && test(filters[i]) ==> holds(world, #[trigger] filters[i], s) {
        assert forall|k: int| 0 <= k < some.len() implies holds(world, #[trigger] some[k], s) by {
            lemma_filter_source(filters, test, k);
            let i = choose|i: int| 0 <= i < filters.len() && filters[i] == some[k];
            assert(test(some[k]));
            assert(holds(world, filters[i], s));
        }
    }
}

/// A selected filter is one of the filters.
proof fn lemma_filter_source(filters: Seq<Expr>, test: spec_fn(Expr) -> bool, k: int)
    requires
        0 <= k < filters.filter(test).len(),
    ensures
        exists|i: int| 0 <= i < filters.len() && filters[i] == filters.filter(test)[k],
        test(filters.filter(test)[k]),
    decreases filters.len(),
{
    reveal(Seq::filter);
    if filters.len() > 0 {
        let shorter = filters.drop_last();
        let some = shorter.filter(test);
        if k < some.len() {
            lemma_filter_source(shorter, test, k);
            let i = choose|i: int| 0 <= i < shorter.len() && shorter[i] == some[k];
            assert(filters[i] == some[k]);
        } else {
            assert(filters[filters.len() - 1] == filters.filter(test)[k]);
        }
    }
}

/// A filter whose variables all have a value keeps its truth when more get one.
proof fn lemma_bound_holds(world: World, f: Expr, types: Types, s: Solution, m: Solution)
    requires
        regular(world),
        has_types(s, types),
        all_bound(f, types),
        extends(m, s),
    ensures
        holds(world, f, s) == holds(world, f, m),
{
    assert(agree(s, m, expr_variables(f))) by {
        assert forall|v: Seq<char>| #[trigger] expr_variables(f).contains(v) implies lookup(s, v)
            == lookup(m, v) by {
            assert(!type_of(types, v).undef);
            assert(allowed(type_of(types, v), lookup(s, v), false));
            assert(s.dom().contains(v));
        }
    }
    lemma_value_depends(world, f, s, m);
}

/// The same of all filters that are bound.
proof fn lemma_bound_pass(
    world: World,
    filters: Seq<Expr>,
    types: Types,
    s: Solution,
    m: Solution,
)
    requires
        regular(world),
        has_types(s, types),
        extends(m, s),
    ensures
        all_pass(world, bound_filters(filters, types), s) <==> forall|i: int|
            0 <= i < filters.len() && all_bound(filters[i], types) ==> holds(
                world,
                #[trigger] filters[i],
                m,
            ),
{
    let test = |f: Expr| all_bound(f, types);
    lemma_pass_some(world, filters, test, s);
    assert forall|i: int| 0 <= i < filters.len() && all_bound(filters[i], types) implies holds(
        world,
        #[trigger] filters[i],
        s,
    ) == holds(world, filters[i], m) by {
        lemma_bound_holds(world, filters[i], types, s, m);
    }
    if all_pass(world, bound_filters(filters, types), s) {
        assert forall|i: int| 0 <= i < filters.len() && all_bound(filters[i], types) implies holds(
            world,
            #[trigger] filters[i],
            m,
        ) by {
            assert(test(filters[i]));
            assert(holds(world, filters[i], s));
        }
    }
    if forall|i: int|
        0 <= i < filters.len() && all_bound(filters[i], types) ==> holds(
            world,
            #[trigger] filters[i],
            m,
        ) {
        assert forall|i: int| 0 <= i < filters.len() && test(filters[i]) implies holds(
            world,
            #[trigger] filters[i],
            s,
        ) by {
            assert(holds(world, filters[i], m));
        }
    }
}

/// Gathering from what is kept.
proof fn lemma_gather_kept<A, B>(
    items: Seq<A>,
    ok: spec_fn(A) -> bool,
    f: spec_fn(A) -> Seq<B>,
    g: spec_fn(A) -> Seq<B>,
)
    requires
        forall|i: int|
            0 <= i < items.len() ==> g(#[trigger] items[i]) == if ok(items[i]) {
                f(items[i])
            } else {
                seq![]
            },
    ensures
        gather(keep(items, ok), f) == gather(items, g),
    decreases items.len(),
{
    if items.len() > 0 {
        let shorter = items.drop_last();
        let last = items.last();
        assert forall|i: int| 0 <= i < shorter.len() implies g(#[trigger] shorter[i]) == if ok(
            shorter[i],
        ) {
            f(shorter[i])
        } else {
            seq![]
        } by {
            assert(g(items[i]) == if ok(items[i]) {
                f(items[i])
            } else {
                seq![]
            });
        }
        lemma_gather_kept(shorter, ok, f, g);
        let one = if ok(last) {
            seq![last]
        } else {
            seq![]
        };
        lemma_gather_concat(keep(shorter, ok), one, f);
        assert(g(items[items.len() - 1]) == if ok(last) {
            f(last)
        } else {
            seq![]
        });
        if ok(last) {
            lemma_gather_single(last, f);
        } else {
            assert(gather(one, f) =~= seq![]);
        }
        assert(keep(items, ok) == keep(shorter, ok) + one);
    } else {
        assert(gather(keep(items, ok), f) =~= gather(items, g));
    }
}

/// Joining one solution with what is kept of others.
proof fn lemma_joined_kept(
    s: Solution,
    others: Seq<Solution>,
    ok: spec_fn(Solution) -> bool,
    after: spec_fn(Solution) -> bool,
    whole: spec_fn(Solution) -> bool,
)
    requires
        forall|j: int|
            0 <= j < others.len() && compatible(s, #[trigger] others[j]) ==> whole(
                merge(s, others[j]),
            ) == (ok(others[j]) && after(merge(s, others[j]))),
    ensures
        keep(joined_with(s, keep(others, ok)), after) == keep(joined_with(s, others), whole),
{
    let f = |other: Solution| merged(s, other);
    let a = |other: Solution| keep(f(other), after);
    let b = |other: Solution| keep(f(other), whole);
    lemma_keep_gather(keep(others, ok), f, after);
    lemma_keep_gather(others, f, whole);
    assert forall|j: int| 0 <= j < others.len() implies b(#[trigger] others[j]) == if ok(
        others[j],
    ) {
        a(others[j])
    } else {
        seq![]
    } by {
        let x = others[j];
        if compatible(s, x) {
            let m = merge(s, x);
            lemma_keep_one(m, after);
            lemma_keep_one(m, whole);
            assert(f(x) == seq![m]);
        } else {
            assert(f(x) =~= seq![]);
            assert(keep(f(x), after) =~= seq![]);
            assert(keep(f(x), whole) =~= seq![]);
        }
    }
    lemma_gather_kept(others, ok, a, b);
}

proof fn lemma_keep_one<A>(item: A, ok: spec_fn(A) -> bool)
    ensures
        keep(seq![item], ok) == if ok(item) {
            seq![item]
        } else {
            seq![]
        },
{
    lemma_gather_single(
        item,
        |x: A|
            if ok(x) {
                seq![x]
            } else {
                seq![]
            },
    );
}

/// Filters on a join, of which some are checked on its sides.
proof fn lemma_join_kept(
    left: Seq<Solution>,
    right: Seq<Solution>,
    f: spec_fn(Solution) -> bool,
    g: spec_fn(Solution) -> bool,
    after: spec_fn(Solution) -> bool,
    whole: spec_fn(Solution) -> bool,
)
    requires
        forall|i: int, j: int|
            0 <= i < left.len() && 0 <= j < right.len() && compatible(left[i], right[j]) ==> whole(
                #[trigger] merge(left[i], right[j]),
            ) == (f(left[i]) && g(right[j]) && after(merge(left[i], right[j]))),
    ensures
        keep(joined_bags(keep(left, f), keep(right, g)), after) == keep(
            joined_bags(left, right),
            whole,
        ),
{
    let kept = keep(right, g);
    let a = |s: Solution| joined_with(s, kept);
    let b = |s: Solution| joined_with(s, right);
    lemma_keep_gather(keep(left, f), a, after);
    lemma_keep_gather(left, b, whole);
    let x = |s: Solution| keep(a(s), after);
    let y = |s: Solution| keep(b(s), whole);
    assert forall|i: int| 0 <= i < left.len() implies y(#[trigger] left[i]) == if f(left[i]) {
        x(left[i])
    } else {
        seq![]
    } by {
        let s = left[i];
        if f(s) {
            assert forall|j: int|
                0 <= j < right.len() && compatible(s, #[trigger] right[j]) implies whole(
                merge(s, right[j]),
            ) == (g(right[j]) && after(merge(s, right[j]))) by {
                assert(whole(merge(left[i], right[j])) == (f(left[i]) && g(right[j]) && after(
                    merge(left[i], right[j]),
                )));
            }
            lemma_joined_kept(s, right, g, after, whole);
        } else {
            let all = joined_with(s, right);
            assert forall|k: int| 0 <= k < all.len() implies !whole(#[trigger] all[k]) by {
                lemma_contains_index(all, k);
                let j = lemma_joined_origin(s, right, all[k]);
                assert(whole(merge(left[i], right[j])) == (f(left[i]) && g(right[j]) && after(
                    merge(left[i], right[j]),
                )));
            }
            lemma_keep_none(all, whole);
        }
    }
    lemma_gather_kept(left, f, x, y);
}

/// Filters on what is made of each solution, of which some are checked before.
proof fn lemma_guarded(
    left: Seq<Solution>,
    kept: Seq<Solution>,
    first: spec_fn(Solution) -> bool,
    whole: spec_fn(Solution) -> bool,
    m: spec_fn(Solution) -> Seq<Solution>,
    n: spec_fn(Solution) -> Seq<Solution>,
)
    requires
        same(kept, keep(left, first)),
        forall|i: int|
            0 <= i < left.len() && first(#[trigger] left[i]) ==> same(
                n(left[i]),
                keep(m(left[i]), whole),
            ),
        forall|i: int|
            0 <= i < left.len() && !first(#[trigger] left[i]) ==> keep(m(left[i]), whole)
                == Seq::<Solution>::empty(),
    ensures
        same(gather(kept, n), keep(gather(left, m), whole)),
{
    lemma_gather_order(kept, keep(left, first), n);
    let a = |s: Solution|
        if first(s) {
            n(s)
        } else {
            seq![]
        };
    let b = |s: Solution| keep(m(s), whole);
    lemma_gather_kept(left, first, n, a);
    assert forall|i: int| 0 <= i < left.len() implies same(a(#[trigger] left[i]), b(left[i])) by {
        if first(left[i]) {
            assert(same(n(left[i]), keep(m(left[i]), whole)));
        } else {
            assert(keep(m(left[i]), whole) == Seq::<Solution>::empty());
        }
    }
    lemma_gather_same(left, a, b);
    lemma_keep_gather(left, m, whole);
}

/// Without filters everything passes.
pub proof fn lemma_nothing_pushed(world: World, solutions: Seq<Solution>, filters: Seq<Expr>)
    requires
        filters.len() == 0,
    ensures
        keep(solutions, passes(world, filters)) == solutions,
{
    let ok = passes(world, filters);
    assert forall|i: int| 0 <= i < solutions.len() implies ok(#[trigger] solutions[i]) by {
        assert(all_pass(world, filters, solutions[i]));
    }
    lemma_keep_all(solutions, ok);
}

/// Filters on a plan of which the solutions are given.
proof fn lemma_filter_passes(
    world: World,
    plan: Plan,
    filters: Seq<Expr>,
    input: Solution,
    solutions: Seq<Solution>,
)
    requires
        same(eval(world, plan, input), solutions),
    ensures
        same(
            eval(world, filter(plan, and_all(filters)), input),
            keep(solutions, passes(world, filters)),
        ),
{
    lemma_filter(world, plan, and_all(filters), input);
    lemma_passes(world, eval(world, plan, input), filters);
    lemma_keep_order(eval(world, plan, input), solutions, passes(world, filters));
}

#[verifier::spinoff_prover]
proof fn lemma_push_join(
    world: World,
    left: Plan,
    right: Plan,
    keys: Seq<Seq<char>>,
    filters: Seq<Expr>,
    types: Types,
    input: Solution,
    outside: Names,
)
    requires
        regular(world),
        placed(input, types, outside),
        hygienic(left, outside),
        hygienic(right, outside),
        same(
            eval(world, push(left, bound_filters(filters, infer(left, types)), types), input),
            keep(
                eval(world, left, input),
                passes(world, bound_filters(filters, infer(left, types))),
            ),
        ),
        same(
            eval(world, push(right, bound_filters(filters, infer(right, types)), types), input),
            keep(
                eval(world, right, input),
                passes(world, bound_filters(filters, infer(right, types))),
            ),
        ),
    ensures
        ({
            let plan = Plan::Join { left: Box::new(left), right: Box::new(right), keys };
            same(
                eval(world, push(plan, filters, types), input),
                keep(eval(world, plan, input), passes(world, filters)),
            )
        }),
{
    let (lt, rt) = (infer(left, types), infer(right, types));
    let (fl, fr) = (bound_filters(filters, lt), bound_filters(filters, rt));
    let open = doubly_open_filters(filters, lt, rt);
    let (l, r) = (push(left, fl, types), push(right, fr, types));
    let (x, y) = (eval(world, left, input), eval(world, right, input));
    let (f, g) = (passes(world, fl), passes(world, fr));
    let (after, whole) = (passes(world, open), passes(world, filters));
    lemma_join(world, l, r, keys, input);
    lemma_join_same(eval(world, l, input), eval(world, r, input), keep(x, f), keep(y, g));
    lemma_filter_passes(
        world,
        join(l, r, keys),
        open,
        input,
        joined_bags(keep(x, f), keep(y, g)),
    );
    assert forall|i: int, j: int|
        0 <= i < x.len() && 0 <= j < y.len() && compatible(x[i], y[j]) implies whole(
        #[trigger] merge(x[i], y[j]),
    ) == (f(x[i]) && g(y[j]) && after(merge(x[i], y[j]))) by {
        let m = merge(x[i], y[j]);
        lemma_contains_index(x, i);
        lemma_contains_index(y, j);
        lemma_merge_extends(x[i], y[j]);
        lemma_solution_placed(world, left, input, types, outside, x[i]);
        lemma_solution_placed(world, right, input, types, outside, y[j]);
        lemma_bound_pass(world, filters, lt, x[i], m);
        lemma_bound_pass(world, filters, rt, y[j], m);
        let test = |e: Expr| !all_bound(e, lt) && !all_bound(e, rt);
        lemma_pass_some(world, filters, test, m);
        lemma_pass_parts(world, filters, lt, rt, m);
    }
    lemma_join_kept(x, y, f, g, after, whole);
}

/// Every filter is bound on one of two sides, or on none of them.
proof fn lemma_pass_parts(
    world: World,
    filters: Seq<Expr>,
    left: Types,
    right: Types,
    m: Solution,
)
    ensures
        all_pass(world, filters, m) == ((forall|i: int|
            0 <= i < filters.len() && all_bound(filters[i], left) ==> holds(
                world,
                #[trigger] filters[i],
                m,
            )) && (forall|i: int|
            0 <= i < filters.len() && all_bound(filters[i], right) ==> holds(
                world,
                #[trigger] filters[i],
                m,
            )) && (forall|i: int|
            0 <= i < filters.len() && !all_bound(filters[i], left) && !all_bound(filters[i], right)
                ==> holds(world, #[trigger] filters[i], m))),
{
}

/// A lateral join with a filter moved out has the solutions of the lateral join.
proof fn lemma_filter_out(world: World, left: Plan, right: Plan, input: Solution)
    ensures
        eval(world, lateral_filter_out(left, right), input) == gather(
            eval(world, left, input),
            evaluator(world, right),
        ),
{
    match right {
        Plan::Filter { inner, expression } => {
            let l = eval(world, left, input);
            let f = evaluator(world, *inner);
            let ok = condition(world, expression);
            lemma_lateral(world, left, *inner, input);
            lemma_filter(world, lateral(left, *inner), expression, input);
            lemma_keep_gather(l, f, ok);
            let g = |s: Solution| keep(f(s), ok);
            let h = evaluator(world, right);
            assert forall|i: int| 0 <= i < l.len() implies g(#[trigger] l[i]) == h(l[i]) by {
                assert(h(l[i]) == eval(world, right, l[i]));
            }
            lemma_gather_equal(l, g, h);
        },
        _ => {
            lemma_lateral(world, left, right, input);
        },
    }
}

/// Filters on what extends a solution, of which some are checked on the solution.
proof fn lemma_pass_split(
    world: World,
    filters: Seq<Expr>,
    types: Types,
    s: Solution,
    t: Solution,
)
    requires
        regular(world),
        has_types(s, types),
        extends(t, s),
    ensures
        all_pass(world, filters, t) == (all_pass(world, bound_filters(filters, types), s)
            && all_pass(world, open_filters(filters, types), t)),
{
    lemma_bound_pass(world, filters, types, s, t);
    let test = |e: Expr| !all_bound(e, types);
    lemma_pass_some(world, filters, test, t);
    lemma_pass_parts(world, filters, types, types, t);
}

/// What is made of a solution, where all of it extends the solution.
proof fn lemma_kept_split(
    world: World,
    filters: Seq<Expr>,
    types: Types,
    s: Solution,
    made: Seq<Solution>,
)
    requires
        regular(world),
        has_types(s, types),
        forall|k: int| 0 <= k < made.len() ==> extends(#[trigger] made[k], s),
    ensures
        all_pass(world, bound_filters(filters, types), s) ==> keep(made, passes(world, filters))
            == keep(made, passes(world, open_filters(filters, types))),
        !all_pass(world, bound_filters(filters, types), s) ==> keep(made, passes(world, filters))
            == Seq::<Solution>::empty(),
{
    let (whole, open) = (passes(world, filters), passes(world, open_filters(filters, types)));
    assert forall|k: int| 0 <= k < made.len() implies whole(#[trigger] made[k]) == (all_pass(
        world,
        bound_filters(filters, types),
        s,
    ) && open(made[k])) by {
        lemma_pass_split(world, filters, types, s, made[k]);
    }
    if all_pass(world, bound_filters(filters, types), s) {
        lemma_keep_equal(made, whole, open);
    } else {
        lemma_keep_none(made, whole);
    }
}

#[verifier::spinoff_prover]
proof fn lemma_push_lateral(
    world: World,
    left: Plan,
    right: Plan,
    filters: Seq<Expr>,
    types: Types,
    input: Solution,
    outside: Names,
)
    requires
        regular(world),
        placed(input, types, outside),
        hygienic(left, outside),
        same(
            eval(world, push(left, bound_filters(filters, infer(left, types)), types), input),
            keep(
                eval(world, left, input),
                passes(world, bound_filters(filters, infer(left, types))),
            ),
        ),
        forall|s: Solution| #[trigger]
            eval(world, left, input).contains(s) ==> same(
                eval(
                    world,
                    push(right, open_filters(filters, infer(left, types)), infer(left, types)),
                    s,
                ),
                keep(
                    eval(world, right, s),
                    passes(world, open_filters(filters, infer(left, types))),
                ),
            ),
    ensures
        ({
            let plan = Plan::Lateral { left: Box::new(left), right: Box::new(right) };
            same(
                eval(world, push(plan, filters, types), input),
                keep(eval(world, plan, input), passes(world, filters)),
            )
        }),
{
    let lt = infer(left, types);
    let (bound, open) = (bound_filters(filters, lt), open_filters(filters, lt));
    let (l, r) = (push(left, bound, types), push(right, open, lt));
    let x = eval(world, left, input);
    let (m, n) = (evaluator(world, right), evaluator(world, r));
    let (first, whole) = (passes(world, bound), passes(world, filters));
    lemma_filter_out(world, l, r, input);
    assert forall|i: int| 0 <= i < x.len() implies (first(#[trigger] x[i]) ==> same(
        n(x[i]),
        keep(m(x[i]), whole),
    )) && (!first(x[i]) ==> keep(m(x[i]), whole) == Seq::<Solution>::empty()) by {
        lemma_contains_index(x, i);
        lemma_solution_placed(world, left, input, types, outside, x[i]);
        let made = eval(world, right, x[i]);
        lemma_eval_extends(world, right, x[i]);
        lemma_kept_split(world, filters, lt, x[i], made);
        assert(m(x[i]) == made);
        assert(n(x[i]) == eval(world, r, x[i]));
    }
    lemma_guarded(x, eval(world, l, input), first, whole, m, n);
}

/// The matches of a solution extend it.
pub proof fn lemma_matches_extend(
    world: World,
    e: Expr,
    others: Seq<Solution>,
    s: Solution,
    k: int,
)
    requires
        0 <= k < matcher(world, e, others)(s).len(),
    ensures
        extends(matcher(world, e, others)(s)[k], s),
{
    let ok = condition(world, e);
    let joined = joined_with(s, others);
    let matches = keep(joined, ok);
    let all = matcher(world, e, others)(s);
    assert(all == or_itself(s, matches));
    if matches.len() > 0 {
        lemma_contains_index(matches, k);
        lemma_keep_contains(joined, ok, matches[k]);
        let j = lemma_joined_origin(s, others, matches[k]);
        lemma_merge_extends(s, others[j]);
    }
}

/// A condition that is checked on the right side.
proof fn lemma_moved_condition(
    world: World,
    e: Expr,
    s: Solution,
    others: Seq<Solution>,
    left_types: Types,
    right_types: Types,
)
    requires
        regular(world),
        has_types(s, left_types),
        forall|j: int| 0 <= j < others.len() ==> has_types(#[trigger] others[j], right_types),
        is_right_condition(e, left_types, right_types),
    ensures
        matcher(world, truth(true), keep(others, passes(world, seq![e])))(s) == matcher(
            world,
            e,
            others,
        )(s),
{
    let ok = passes(world, seq![e]);
    let (after, whole) = (condition(world, truth(true)), condition(world, e));
    assert forall|j: int| 0 <= j < others.len() && compatible(
        s,
        #[trigger] others[j],
    ) implies whole(
        merge(s, others[j]),
    ) == (ok(others[j]) && after(merge(s, others[j]))) by {
        let x = others[j];
        let m = merge(s, x);
        lemma_merge_extends(s, x);
        lemma_known(world, truth(true), m);
        assert(after(m));
        assert(has_types(x, right_types));
        if all_bound(e, right_types) {
            lemma_bound_holds(world, e, right_types, x, m);
        } else {
            assert(agree(x, m, expr_variables(e))) by {
                assert forall|v: Seq<char>| #[trigger] expr_variables(e).contains(v) implies lookup(
                    x,
                    v,
                ) == lookup(m, v) by {
                    assert(type_of(left_types, v) == VariableType::of_undef());
                    assert(allowed(type_of(left_types, v), lookup(s, v), false));
                }
            }
            lemma_value_depends(world, e, x, m);
        }
        assert(ok(x) == all_pass(world, seq![e], x));
        assert(all_pass(world, seq![e], x) == holds(world, e, x)) by {
            assert(seq![e][0] == e);
        }
        assert(whole(m) == holds(world, e, m));
    }
    lemma_joined_kept(s, others, ok, after, whole);
}

#[verifier::spinoff_prover]
proof fn lemma_push_left_join(
    world: World,
    left: Plan,
    right: Plan,
    expression: Expr,
    keys: Seq<Seq<char>>,
    filters: Seq<Expr>,
    types: Types,
    input: Solution,
    outside: Names,
)
    requires
        regular(world),
        placed(input, types, outside),
        hygienic(left, outside),
        hygienic(right, outside),
        same(
            eval(world, push(left, bound_filters(filters, infer(left, types)), types), input),
            keep(
                eval(world, left, input),
                passes(world, bound_filters(filters, infer(left, types))),
            ),
        ),
        same(
            eval(world, push(right, seq![], types), input),
            keep(eval(world, right, input), passes(world, seq![])),
        ),
        same(
            eval(world, push(right, seq![expression], types), input),
            keep(eval(world, right, input), passes(world, seq![expression])),
        ),
    ensures
        ({
            let plan = Plan::LeftJoin {
                left: Box::new(left),
                right: Box::new(right),
                expression,
                keys,
            };
            same(
                eval(world, push(plan, filters, types), input),
                keep(eval(world, plan, input), passes(world, filters)),
            )
        }),
{
    let (lt, rt) = (infer(left, types), infer(right, types));
    let moves = is_right_condition(expression, lt, rt);
    let (bound, open) = (bound_filters(filters, lt), open_filters(filters, lt));
    let moved = if moves {
        seq![expression]
    } else {
        seq![]
    };
    let e = if moves {
        truth(true)
    } else {
        expression
    };
    let (l, r) = (push(left, bound, types), push(right, moved, types));
    let (x, y) = (eval(world, left, input), eval(world, right, input));
    let z = eval(world, r, input);
    let (m, n) = (matcher(world, expression, y), matcher(world, e, z));
    let (first, whole, after) = (
        passes(world, bound),
        passes(world, filters),
        passes(world, open),
    );
    let inner = left_join(l, r, e, keys);
    lemma_left_join(world, l, r, e, keys, input);
    lemma_filter_passes(world, inner, open, input, eval(world, inner, input));
    let kept = eval(world, l, input);
    lemma_keep_gather(kept, n, after);
    let k = |s: Solution| keep(n(s), after);
    assert forall|i: int| 0 <= i < x.len() implies (first(#[trigger] x[i]) ==> same(
        k(x[i]),
        keep(m(x[i]), whole),
    )) && (!first(x[i]) ==> keep(m(x[i]), whole) == Seq::<Solution>::empty()) by {
        let s = x[i];
        lemma_contains_index(x, i);
        lemma_solution_placed(world, left, input, types, outside, s);
        assert forall|j: int| 0 <= j < m(s).len() implies extends(#[trigger] m(s)[j], s) by {
            lemma_matches_extend(world, expression, y, s, j);
        }
        lemma_kept_split(world, filters, lt, s, m(s));
        if moves {
            assert forall|j: int| 0 <= j < y.len() implies has_types(#[trigger] y[j], rt) by {
                lemma_contains_index(y, j);
                lemma_solution_placed(world, right, input, types, outside, y[j]);
            }
            lemma_moved_condition(world, expression, s, y, lt, rt);
            lemma_match_same(
                world,
                s,
                z,
                keep(y, passes(world, seq![expression])),
                truth(true),
                truth(true),
            );
        } else {
            lemma_nothing_pushed(world, y, seq![]);
            lemma_match_same(world, s, z, y, expression, expression);
        }
        assert(same(n(s), m(s)));
        lemma_keep_order(n(s), m(s), after);
    }
    lemma_guarded(x, kept, first, whole, m, k);
}

/// A filter that does not use a variable keeps its truth when the variable gets
/// a value.
proof fn lemma_unused_holds(
    world: World,
    f: Expr,
    variable: Seq<char>,
    s: Solution,
    y: Option<Term>,
    t: Solution,
)
    requires
        regular(world),
        extended(s, variable, y).contains(t),
        !expr_variables(f).contains(variable),
    ensures
        holds(world, f, s) == holds(world, f, t),
{
    assert(agree(s, t, expr_variables(f))) by {
        if let Some(term) = y {
            let cell: Solution = Map::empty().insert(variable, term);
            assert(merged(s, cell).contains(t));
            assert(t == merge(s, cell));
        }
    }
    lemma_value_depends(world, f, s, t);
}

#[verifier::spinoff_prover]
proof fn lemma_push_extend(
    world: World,
    inner: Plan,
    variable: Seq<char>,
    expression: Expr,
    filters: Seq<Expr>,
    types: Types,
    input: Solution,
)
    requires
        regular(world),
        same(
            eval(world, push(inner, filters_without(filters, variable), types), input),
            keep(
                eval(world, inner, input),
                passes(world, filters_without(filters, variable)),
            ),
        ),
    ensures
        ({
            let plan = Plan::Extend { inner: Box::new(inner), variable, expression };
            same(
                eval(world, push(plan, filters, types), input),
                keep(eval(world, plan, input), passes(world, filters)),
            )
        }),
{
    let (less, more) = (filters_without(filters, variable), filters_with(filters, variable));
    let i = push(inner, less, types);
    let x = eval(world, inner, input);
    let kept = eval(world, i, input);
    let m = extender(world, variable, expression);
    let (first, whole, after) = (
        passes(world, less),
        passes(world, filters),
        passes(world, more),
    );
    let raw = extend(i, variable, expression);
    lemma_extend(world, i, variable, expression, input);
    lemma_filter_passes(world, raw, more, input, eval(world, raw, input));
    lemma_keep_gather(kept, m, after);
    let k = |s: Solution| keep(m(s), after);
    assert forall|j: int| 0 <= j < x.len() implies (first(#[trigger] x[j]) ==> same(
        k(x[j]),
        keep(m(x[j]), whole),
    )) && (!first(x[j]) ==> keep(m(x[j]), whole) == Seq::<Solution>::empty()) by {
        let s = x[j];
        let y = value(world, expression, s);
        assert(m(s) == extended(s, variable, y));
        assert forall|n: int| 0 <= n < m(s).len() implies whole(#[trigger] m(s)[n]) == (first(s)
            && after(m(s)[n])) by {
            let t = m(s)[n];
            lemma_contains_index(m(s), n);
            let without = |f: Expr| !expr_variables(f).contains(variable);
            let with = |f: Expr| expr_variables(f).contains(variable);
            lemma_pass_some(world, filters, without, s);
            lemma_pass_some(world, filters, with, t);
            assert forall|a: int| 0 <= a < filters.len() && without(filters[a]) implies holds(
                world,
                #[trigger] filters[a],
                s,
            ) == holds(world, filters[a], t) by {
                lemma_unused_holds(world, filters[a], variable, s, y, t);
            }
            assert(whole(t) == all_pass(world, filters, t));
            assert(first(s) == all_pass(world, less, s));
            assert(after(t) == all_pass(world, more, t));
            if all_pass(world, less, s) && all_pass(world, more, t) {
                assert forall|a: int| 0 <= a < filters.len() implies holds(
                    world,
                    #[trigger] filters[a],
                    t,
                ) by {
                    if without(filters[a]) {
                        assert(holds(world, filters[a], s));
                    } else {
                        assert(with(filters[a]));
                    }
                }
            }
            if all_pass(world, filters, t) {
                assert forall|a: int| 0 <= a < filters.len() && without(filters[a]) implies holds(
                    world,
                    #[trigger] filters[a],
                    s,
                ) by {
                    assert(holds(world, filters[a], t));
                }
            }
        }
        if first(s) {
            lemma_keep_equal(m(s), after, whole);
        } else {
            lemma_keep_none(m(s), whole);
        }
    }
    lemma_guarded(x, kept, first, whole, m, k);
}

/// Keeping by two conditions, in either order.
proof fn lemma_keep_swap<A>(
    items: Seq<A>,
    first: spec_fn(A) -> bool,
    second: spec_fn(A) -> bool,
)
    ensures
        keep(keep(items, first), second) == keep(keep(items, second), first),
{
    lemma_keep_twice(items, first, second);
    lemma_keep_twice(items, second, first);
    let a = |item: A| first(item) && second(item);
    let b = |item: A| second(item) && first(item);
    lemma_keep_equal(items, a, b);
}

proof fn lemma_push_minus(
    world: World,
    left: Plan,
    right: Plan,
    keys: Seq<Seq<char>>,
    filters: Seq<Expr>,
    types: Types,
    input: Solution,
)
    requires
        same(
            eval(world, push(left, filters, types), input),
            keep(eval(world, left, input), passes(world, filters)),
        ),
        same(
            eval(world, push(right, seq![], types), input),
            keep(eval(world, right, input), passes(world, seq![])),
        ),
    ensures
        ({
            let plan = Plan::Minus { left: Box::new(left), right: Box::new(right), keys };
            same(
                eval(world, push(plan, filters, types), input),
                keep(eval(world, plan, input), passes(world, filters)),
            )
        }),
{
    let (l, r) = (push(left, filters, types), push(right, seq![], types));
    let (x, y) = (eval(world, left, input), eval(world, right, input));
    let ok = passes(world, filters);
    lemma_nothing_pushed(world, y, seq![]);
    lemma_minus(world, l, r, keys, input);
    lemma_minus_same(
        eval(world, l, input),
        keep(x, ok),
        eval(world, r, input),
        y,
        input,
    );
    lemma_keep_swap(x, ok, remains(y, input));
}

/// A condition among the filters.
proof fn lemma_added_pass(world: World, filters: Seq<Expr>, expression: Expr, s: Solution)
    ensures
        all_pass(world, added_filters(filters, expression), s) == (holds(world, expression, s)
            && all_pass(world, filters, s)),
{
    let all = added_filters(filters, expression);
    match expression {
        Expr::And(inner) => {
            lemma_and_holds(world, inner, s);
            assert(all =~= filters + inner);
            if all_pass(world, all, s) {
                assert forall|i: int| 0 <= i < filters.len() implies holds(
                    world,
                    #[trigger] filters[i],
                    s,
                ) by {
                    assert(holds(world, all[i], s));
                }
                assert forall|i: int| 0 <= i < inner.len() implies holds(
                    world,
                    #[trigger] inner[i],
                    s,
                ) by {
                    assert(holds(world, all[filters.len() + i], s));
                }
            }
            if holds(world, expression, s) && all_pass(world, filters, s) {
                assert forall|i: int| 0 <= i < all.len() implies holds(
                    world,
                    #[trigger] all[i],
                    s,
                ) by {
                    if i < filters.len() {
                        assert(holds(world, filters[i], s));
                    } else {
                        assert(holds(world, inner[i - filters.len()], s));
                    }
                }
            }
        },
        _ => {
            assert(all =~= filters.push(expression));
            if all_pass(world, all, s) {
                assert(holds(world, all[filters.len() as int], s));
                assert forall|i: int| 0 <= i < filters.len() implies holds(
                    world,
                    #[trigger] filters[i],
                    s,
                ) by {
                    assert(holds(world, all[i], s));
                }
            }
        },
    }
}

proof fn lemma_push_filter(
    world: World,
    inner: Plan,
    expression: Expr,
    filters: Seq<Expr>,
    types: Types,
    input: Solution,
)
    requires
        same(
            eval(world, push(inner, added_filters(filters, expression), types), input),
            keep(
                eval(world, inner, input),
                passes(world, added_filters(filters, expression)),
            ),
        ),
    ensures
        ({
            let plan = Plan::Filter { inner: Box::new(inner), expression };
            same(
                eval(world, push(plan, filters, types), input),
                keep(eval(world, plan, input), passes(world, filters)),
            )
        }),
{
    let x = eval(world, inner, input);
    let (a, b) = (condition(world, expression), passes(world, filters));
    let c = passes(world, added_filters(filters, expression));
    lemma_keep_twice(x, a, b);
    let both = |s: Solution| a(s) && b(s);
    assert forall|i: int| 0 <= i < x.len() implies both(#[trigger] x[i]) == c(x[i]) by {
        lemma_added_pass(world, filters, expression, x[i]);
        assert(a(x[i]) == holds(world, expression, x[i]));
        assert(b(x[i]) == all_pass(world, filters, x[i]));
        assert(c(x[i]) == all_pass(world, added_filters(filters, expression), x[i]));
    }
    lemma_keep_equal(x, both, c);
}

proof fn lemma_push_union(
    world: World,
    plans: Seq<Plan>,
    pushed: Seq<Plan>,
    ok: spec_fn(Solution) -> bool,
    input: Solution,
)
    requires
        plans.len() == pushed.len(),
        forall|i: int|
            0 <= i < plans.len() ==> same(
                eval(world, #[trigger] pushed[i], input),
                keep(eval(world, plans[i], input), ok),
            ),
    ensures
        same(eval_all(world, pushed, input), keep(eval_all(world, plans, input), ok)),
    decreases plans.len(),
{
    if plans.len() == 0 {
        assert(eval_all(world, plans, input) =~= seq![]);
        assert(keep(eval_all(world, plans, input), ok) =~= seq![]);
        assert(eval_all(world, pushed, input) =~= seq![]);
    } else {
        let (a, b) = (plans.drop_last(), pushed.drop_last());
        let n = plans.len() - 1;
        assert forall|i: int| 0 <= i < a.len() implies same(
            eval(world, #[trigger] b[i], input),
            keep(eval(world, a[i], input), ok),
        ) by {
            assert(same(
                eval(world, pushed[i], input),
                keep(eval(world, plans[i], input), ok),
            ));
        }
        lemma_push_union(world, a, b, ok, input);
        let (x, y) = (eval_all(world, a, input), eval(world, plans[n], input));
        lemma_gather_concat(
            x,
            y,
            |item: Solution|
                if ok(item) {
                    seq![item]
                } else {
                    seq![]
                },
        );
        assert(same(eval(world, pushed[n], input), keep(y, ok)));
        lemma_same_concat(
            eval_all(world, b, input),
            eval(world, pushed[n], input),
            keep(x, ok),
            keep(y, ok),
        );
    }
}

/// The variables of some of the filters.
proof fn lemma_some_variables(filters: Seq<Expr>, test: spec_fn(Expr) -> bool)
    ensures
        exprs_variables(filters.filter(test)).subset_of(exprs_variables(filters)),
{
    let some = filters.filter(test);
    assert forall|v: Seq<char>| #[trigger] exprs_variables(some).contains(v) implies
        exprs_variables(filters).contains(v) by {
        let k = choose|k: int|
            0 <= k < some.len() && expr_variables(#[trigger] some[k]).contains(v);
        lemma_filter_source(filters, test, k);
        let i = choose|i: int| 0 <= i < filters.len() && filters[i] == some[k];
        assert(expr_variables(filters[i]).contains(v));
    }
}

proof fn lemma_filter_names(plan: Plan, filters: Seq<Expr>)
    ensures
        plan_variables(filter(plan, and_all(filters))).subset_of(
            plan_variables(plan).union(exprs_variables(filters)),
        ),
{
    lemma_filter_tamer(plan, and_all(filters), 0);
    lemma_and_tamer(filters, 0);
}

proof fn lemma_one_filter_names(plan: Plan, e: Expr)
    ensures
        plan_variables(filter(plan, e)).subset_of(plan_variables(plan).union(expr_variables(e))),
{
    lemma_filter_tamer(plan, e, 0);
}

proof fn lemma_join_names(l: Plan, r: Plan, keys: Seq<Seq<char>>)
    ensures
        plan_variables(join(l, r, keys)).subset_of(
            plan_variables(l).union(plan_variables(r)),
        ),
{
    lemma_join_tamer(l, r, keys, 0);
}

proof fn lemma_lateral_names(l: Plan, r: Plan)
    ensures
        plan_variables(lateral(l, r)).subset_of(plan_variables(l).union(plan_variables(r))),
{
    lemma_lateral_tamer(l, r, 0);
}

proof fn lemma_left_join_names(l: Plan, r: Plan, e: Expr, keys: Seq<Seq<char>>)
    ensures
        plan_variables(left_join(l, r, e, keys)).subset_of(
            plan_variables(l).union(plan_variables(r)).union(expr_variables(e)),
        ),
{
    lemma_left_join_tamer(l, r, e, keys, 0);
}

proof fn lemma_minus_names(l: Plan, r: Plan, keys: Seq<Seq<char>>)
    ensures
        plan_variables(minus(l, r, keys)).subset_of(
            plan_variables(l).union(plan_variables(r)),
        ),
{
    lemma_minus_tamer(l, r, keys, 0);
}

proof fn lemma_union_names(plans: Seq<Plan>)
    ensures
        plan_variables(union_all(plans)).subset_of(plans_variables(plans)),
{
    lemma_union_tamer(plans, 0);
}

proof fn lemma_group_names(
    inner: Plan,
    variables: Seq<Seq<char>>,
    aggregates: Seq<(Seq<char>, AggregateExpr)>,
)
    ensures
        plan_variables(group(inner, variables, aggregates)).subset_of(
            variables.to_set().union(aggregate_names(aggregates)),
        ),
{
    lemma_group_tamer(inner, variables, aggregates, 0);
}

proof fn lemma_wrapper_names(
    inner: Plan,
    variable: Seq<char>,
    expression: Expr,
    orders: Seq<OrderExpr>,
    start: usize,
    length: Option<usize>,
)
    ensures
        plan_variables(extend(inner, variable, expression)).subset_of(
            plan_variables(inner).union(expr_variables(expression)).insert(variable),
        ),
        plan_variables(order_by(inner, orders)).subset_of(plan_variables(inner)),
        plan_variables(distinct(inner)).subset_of(plan_variables(inner)),
        plan_variables(reduced(inner)).subset_of(plan_variables(inner)),
        plan_variables(slice(inner, start, length)).subset_of(
            plan_variables(inner),
        ),
{
    lemma_wrappers_tamer(inner, variable, expression, orders, start, length, 0);
}

/// Whether moving filters into a plan uses only their variables and its own.
spec fn uses_no_more(plan: Plan, filters: Seq<Expr>, types: Types) -> bool {
    plan_variables(push(plan, filters, types)).subset_of(
        plan_variables(plan).union(exprs_variables(filters)),
    )
}

#[verifier::spinoff_prover]
proof fn lemma_names_join(
    left: Plan,
    right: Plan,
    keys: Seq<Seq<char>>,
    filters: Seq<Expr>,
    types: Types,
)
    requires
        uses_no_more(left, bound_filters(filters, infer(left, types)), types),
        uses_no_more(right, bound_filters(filters, infer(right, types)), types),
    ensures
        uses_no_more(
            (Plan::Join { left: Box::new(left), right: Box::new(right), keys }),
            filters,
            types,
        ),
{
    let plan = Plan::Join { left: Box::new(left), right: Box::new(right), keys };
    let (lt, rt) = (infer(left, types), infer(right, types));
    lemma_some_variables(filters, |f: Expr| all_bound(f, lt));
    lemma_some_variables(filters, |f: Expr| all_bound(f, rt));
    lemma_some_variables(filters, |f: Expr| !all_bound(f, lt) && !all_bound(f, rt));
    let (l, r) = (
        push(left, bound_filters(filters, lt), types),
        push(right, bound_filters(filters, rt), types),
    );
    lemma_join_names(l, r, keys);
    lemma_filter_names(
        join(l, r, keys),
        doubly_open_filters(filters, lt, rt),
    );
    assert(plan_variables(plan) == plan_variables(left).union(plan_variables(right)));
}

#[verifier::spinoff_prover]
proof fn lemma_names_lateral(left: Plan, right: Plan, filters: Seq<Expr>, types: Types)
    requires
        uses_no_more(left, bound_filters(filters, infer(left, types)), types),
        uses_no_more(
            right,
            open_filters(filters, infer(left, types)),
            infer(left, types),
        ),
    ensures
        uses_no_more(
            (Plan::Lateral { left: Box::new(left), right: Box::new(right) }),
            filters,
            types,
        ),
{
    let plan = Plan::Lateral { left: Box::new(left), right: Box::new(right) };
    let lt = infer(left, types);
    lemma_some_variables(filters, |f: Expr| all_bound(f, lt));
    lemma_some_variables(filters, |f: Expr| !all_bound(f, lt));
    let (l, r) = (
        push(left, bound_filters(filters, lt), types),
        push(right, open_filters(filters, lt), lt),
    );
    assert(plan_variables(plan) == plan_variables(left).union(plan_variables(right)));
    if let Plan::Filter { inner, expression } = r {
        lemma_lateral_names(l, *inner);
        lemma_one_filter_names(lateral(l, *inner), expression);
        assert(plan_variables(r) == expr_variables(expression).union(plan_variables(*inner)));
        let new = filter(lateral(l, *inner), expression);
        assert(push(plan, filters, types) == new);
        assert forall|v: Seq<char>| #[trigger] plan_variables(new).contains(v) implies
            plan_variables(plan).union(exprs_variables(filters)).contains(v) by {
            if expr_variables(expression).contains(v) || plan_variables(*inner).contains(v) {
                assert(plan_variables(r).contains(v));
            } else {
                assert(plan_variables(lateral(l, *inner)).contains(v));
                assert(plan_variables(l).contains(v));
            }
        }
    } else {
        lemma_lateral_names(l, r);
    }
}

#[verifier::spinoff_prover]
proof fn lemma_names_left_join(
    left: Plan,
    right: Plan,
    expression: Expr,
    keys: Seq<Seq<char>>,
    filters: Seq<Expr>,
    types: Types,
)
    requires
        uses_no_more(left, bound_filters(filters, infer(left, types)), types),
        uses_no_more(right, seq![], types),
        uses_no_more(right, seq![expression], types),
    ensures
        uses_no_more(
            (Plan::LeftJoin {
                left: Box::new(left),
                right: Box::new(right),
                expression,
                keys,
            }),
            filters,
            types,
        ),
{
    let plan = Plan::LeftJoin {
        left: Box::new(left),
        right: Box::new(right),
        expression,
        keys,
    };
    let lt = infer(left, types);
    let moves = is_right_condition(expression, lt, infer(right, types));
    let moved = if moves {
        seq![expression]
    } else {
        seq![]
    };
    let e = if moves {
        truth(true)
    } else {
        expression
    };
    assert(expr_variables(truth(true)) =~= Set::<Seq<char>>::empty());
    assert(exprs_variables(Seq::<Expr>::empty()) =~= Set::<Seq<char>>::empty());
    assert(exprs_variables(seq![expression]) =~= expr_variables(expression)) by {
        lemma_part_variables(seq![expression], 0);
    }
    lemma_some_variables(filters, |f: Expr| all_bound(f, lt));
    lemma_some_variables(filters, |f: Expr| !all_bound(f, lt));
    let (l, r) = (
        push(left, bound_filters(filters, lt), types),
        push(right, moved, types),
    );
    lemma_left_join_names(l, r, e, keys);
    lemma_filter_names(left_join(l, r, e, keys), open_filters(filters, lt));
    assert(plan_variables(plan) == expr_variables(expression).union(plan_variables(left)).union(
        plan_variables(right),
    ));
}

#[verifier::spinoff_prover]
proof fn lemma_names_extend(
    inner: Plan,
    variable: Seq<char>,
    expression: Expr,
    filters: Seq<Expr>,
    types: Types,
)
    requires
        uses_no_more(inner, filters_without(filters, variable), types),
    ensures
        uses_no_more(
            (Plan::Extend { inner: Box::new(inner), variable, expression }),
            filters,
            types,
        ),
{
    let plan = Plan::Extend { inner: Box::new(inner), variable, expression };
    lemma_some_variables(filters, |f: Expr| !expr_variables(f).contains(variable));
    lemma_some_variables(filters, |f: Expr| expr_variables(f).contains(variable));
    let i = push(inner, filters_without(filters, variable), types);
    lemma_wrapper_names(i, variable, expression, seq![], 0, None);
    lemma_filter_names(
        extend(i, variable, expression),
        filters_with(filters, variable),
    );
    assert(plan_variables(plan) == expr_variables(expression).union(
        plan_variables(inner),
    ).insert(variable));
}

#[verifier::spinoff_prover]
proof fn lemma_names_filter(
    inner: Plan,
    expression: Expr,
    filters: Seq<Expr>,
    types: Types,
)
    requires
        uses_no_more(inner, added_filters(filters, expression), types),
    ensures
        uses_no_more(
            (Plan::Filter { inner: Box::new(inner), expression }),
            filters,
            types,
        ),
{
    let plan = Plan::Filter { inner: Box::new(inner), expression };
    let used = exprs_variables(filters);
    let all = added_filters(filters, expression);
    assert forall|v: Seq<char>| #[trigger] exprs_variables(all).contains(v) implies used.contains(v)
        || expr_variables(expression).contains(v) by {
        let k = choose|k: int|
            0 <= k < all.len() && expr_variables(#[trigger] all[k]).contains(v);
        if k < filters.len() {
            assert(expr_variables(filters[k]).contains(v));
        } else if let Expr::And(parts) = expression {
            assert(expr_variables(parts[k - filters.len()]).contains(v));
            assert(exprs_variables(parts).contains(v));
        }
    }
    assert(plan_variables(plan) == expr_variables(expression).union(plan_variables(inner)));
    assert(push(plan, filters, types) == push(inner, all, types));
}

#[verifier::spinoff_prover]
proof fn lemma_names_minus(
    left: Plan,
    right: Plan,
    keys: Seq<Seq<char>>,
    filters: Seq<Expr>,
    types: Types,
)
    requires
        uses_no_more(left, filters, types),
        uses_no_more(right, seq![], types),
    ensures
        uses_no_more(
            (Plan::Minus { left: Box::new(left), right: Box::new(right), keys }),
            filters,
            types,
        ),
{
    let plan = Plan::Minus { left: Box::new(left), right: Box::new(right), keys };
    assert(exprs_variables(Seq::<Expr>::empty()) =~= Set::<Seq<char>>::empty());
    lemma_minus_names(push(left, filters, types), push(right, seq![], types), keys);
    assert(plan_variables(plan) == plan_variables(left).union(plan_variables(right)));
}

/// Moving filters down uses no other variables.
#[verifier::spinoff_prover]
pub proof fn lemma_push_variables(plan: Plan, filters: Seq<Expr>, types: Types)
    ensures
        plan_variables(push(plan, filters, types)).subset_of(
            plan_variables(plan).union(exprs_variables(filters)),
        ),
    decreases plan,
{
    let none = Seq::<Expr>::empty();
    match plan {
        Plan::QuadPattern { .. }
        | Plan::Path { .. }
        | Plan::Graph { .. }
        | Plan::Values { .. }
        | Plan::Service { .. } => {
            lemma_filter_names(plan, filters);
        },
        Plan::Join { left, right, keys } => {
            lemma_push_variables(*left, bound_filters(filters, infer(*left, types)), types);
            lemma_push_variables(*right, bound_filters(filters, infer(*right, types)), types);
            lemma_names_join(*left, *right, keys, filters, types);
        },
        Plan::Lateral { left, right } => {
            let lt = infer(*left, types);
            lemma_push_variables(*left, bound_filters(filters, lt), types);
            lemma_push_variables(*right, open_filters(filters, lt), lt);
            lemma_names_lateral(*left, *right, filters, types);
        },
        Plan::LeftJoin { left, right, expression, keys } => {
            let lt = infer(*left, types);
            lemma_push_variables(*left, bound_filters(filters, lt), types);
            lemma_push_variables(*right, none, types);
            lemma_push_variables(*right, seq![expression], types);
            lemma_names_left_join(*left, *right, expression, keys, filters, types);
        },
        Plan::Minus { left, right, keys } => {
            lemma_push_variables(*left, filters, types);
            lemma_push_variables(*right, none, types);
            lemma_names_minus(*left, *right, keys, filters, types);
        },
        Plan::Extend { inner, variable, expression } => {
            lemma_push_variables(*inner, filters_without(filters, variable), types);
            lemma_names_extend(*inner, variable, expression, filters, types);
        },
        Plan::Filter { inner, expression } => {
            lemma_push_variables(*inner, added_filters(filters, expression), types);
            lemma_names_filter(*inner, expression, filters, types);
        },
        Plan::Union { inner } => {
            let all = push_all(inner, filters, types);
            assert(push(plan, filters, types) == union_all(all));
            assert(plan_variables(plan) == plans_variables(inner));
            lemma_union_names(all);
            assert forall|v: Seq<char>| #[trigger] plans_variables(all).contains(v) implies
                plans_variables(inner).contains(v) || exprs_variables(filters).contains(v) by {
                let k = choose|k: int|
                    0 <= k < all.len() && plan_variables(#[trigger] all[k]).contains(v);
                lemma_push_variables(inner[k], filters, types);
                if !exprs_variables(filters).contains(v) {
                    assert(plan_variables(inner[k]).contains(v));
                }
            }
        },
        Plan::Slice { inner, start, length } => {
            lemma_push_variables(*inner, none, types);
            assert(exprs_variables(none) =~= Set::<Seq<char>>::empty());
            let i = push(*inner, none, types);
            lemma_wrapper_names(i, seq![], truth(true), seq![], start, length);
            lemma_filter_names(slice(i, start, length), filters);
            assert(plan_variables(plan) == plan_variables(*inner));
        },
        Plan::Distinct { inner } | Plan::Reduced { inner } => {
            lemma_push_variables(*inner, filters, types);
            let i = push(*inner, filters, types);
            lemma_wrapper_names(i, seq![], truth(true), seq![], 0, None);
            assert(plan_variables(plan) == plan_variables(*inner));
        },
        Plan::OrderBy { inner, expression } => {
            lemma_push_variables(*inner, filters, types);
            let i = push(*inner, filters, types);
            lemma_wrapper_names(i, seq![], truth(true), expression, 0, None);
            assert(plan_variables(plan) == plan_variables(*inner));
        },
        Plan::Project { inner, variables } => {
            let i = push(*inner, none, types);
            lemma_filter_names(project(i, variables), filters);
        },
        Plan::Group { inner, variables, aggregates } => {
            let i = push(*inner, none, types);
            lemma_group_names(i, variables, aggregates);
            lemma_filter_names(group(i, variables, aggregates), filters);
        },
    }
}

/// Moving filters down into a plan has the effect of the filters on the plan.
#[verifier::spinoff_prover]
#[verifier::rlimit(60)]
pub proof fn law_push_preserves(
    world: World,
    plan: Plan,
    filters: Seq<Expr>,
    types: Types,
    input: Solution,
    outside: Names,
)
    requires
        regular(world),
        placed(input, types, outside),
        hygienic(plan, outside),
    ensures
        same(
            eval(world, push(plan, filters, types), input),
            keep(eval(world, plan, input), passes(world, filters)),
        ),
    decreases plan,
{
    let ok = passes(world, filters);
    let none = Seq::<Expr>::empty();
    assert(exprs_variables(none) =~= Set::<Seq<char>>::empty());
    match plan {
        Plan::QuadPattern { .. }
        | Plan::Path { .. }
        | Plan::Graph { .. }
        | Plan::Values { .. }
        | Plan::Service { .. } => {
            lemma_filter_passes(world, plan, filters, input, eval(world, plan, input));
        },
        Plan::Join { left, right, keys } => {
            let (lt, rt) = (infer(*left, types), infer(*right, types));
            law_push_preserves(
                world,
                *left,
                bound_filters(filters, lt),
                types,
                input,
                outside,
            );
            law_push_preserves(
                world,
                *right,
                bound_filters(filters, rt),
                types,
                input,
                outside,
            );
            lemma_push_join(world, *left, *right, keys, filters, types, input, outside);
        },
        Plan::Lateral { left, right } => {
            let lt = infer(*left, types);
            let open = open_filters(filters, lt);
            law_push_preserves(
                world,
                *left,
                bound_filters(filters, lt),
                types,
                input,
                outside,
            );
            assert forall|s: Solution| #[trigger]
                eval(world, *left, input).contains(s) implies same(
                eval(world, push(*right, open, lt), s),
                keep(eval(world, *right, s), passes(world, open)),
            ) by {
                lemma_solution_placed(world, *left, input, types, outside, s);
                law_push_preserves(
                    world,
                    *right,
                    open,
                    lt,
                    s,
                    outside.union(plan_variables(*left)),
                );
            }
            lemma_push_lateral(world, *left, *right, filters, types, input, outside);
        },
        Plan::LeftJoin { left, right, expression, keys } => {
            let lt = infer(*left, types);
            law_push_preserves(
                world,
                *left,
                bound_filters(filters, lt),
                types,
                input,
                outside,
            );
            law_push_preserves(world, *right, none, types, input, outside);
            law_push_preserves(world, *right, seq![expression], types, input, outside);
            lemma_push_left_join(
                world,
                *left,
                *right,
                expression,
                keys,
                filters,
                types,
                input,
                outside,
            );
        },
        Plan::Minus { left, right, keys } => {
            law_push_preserves(world, *left, filters, types, input, outside);
            law_push_preserves(world, *right, none, types, input, outside);
            lemma_push_minus(world, *left, *right, keys, filters, types, input);
        },
        Plan::Extend { inner, variable, expression } => {
            law_push_preserves(
                world,
                *inner,
                filters_without(filters, variable),
                types,
                input,
                outside,
            );
            lemma_push_extend(world, *inner, variable, expression, filters, types, input);
        },
        Plan::Filter { inner, expression } => {
            law_push_preserves(
                world,
                *inner,
                added_filters(filters, expression),
                types,
                input,
                outside,
            );
            lemma_push_filter(world, *inner, expression, filters, types, input);
        },
        Plan::Union { inner } => {
            let all = push_all(inner, filters, types);
            assert(all_hygienic(inner, outside));
            assert forall|i: int| 0 <= i < inner.len() implies same(
                eval(world, #[trigger] all[i], input),
                keep(eval(world, inner[i], input), ok),
            ) by {
                law_push_preserves(world, inner[i], filters, types, input, outside);
            }
            lemma_push_union(world, inner, all, ok, input);
            lemma_union_all(world, all, input);
        },
        Plan::Slice { inner, start, length } => {
            law_push_preserves(world, *inner, none, types, input, outside);
            let i = push(*inner, none, types);
            let x = eval(world, *inner, input);
            lemma_nothing_pushed(world, x, none);
            lemma_slice(world, i, start, length, input);
            lemma_without_same(eval(world, i, input), x, input.dom());
            lemma_filter_passes(
                world,
                slice(i, start, length),
                filters,
                input,
                eval(world, plan, input),
            );
        },
        Plan::Distinct { inner } | Plan::Reduced { inner } => {
            law_push_preserves(world, *inner, filters, types, input, outside);
            let i = push(*inner, filters, types);
            let x = eval(world, *inner, input);
            lemma_distinct(world, i, input);
            lemma_once_order(eval(world, i, input), keep(x, ok));
            lemma_once_keep(x, ok);
        },
        Plan::OrderBy { inner, expression } => {
            law_push_preserves(world, *inner, filters, types, input, outside);
            lemma_order_by(world, push(*inner, filters, types), expression, input);
        },
        Plan::Project { inner, variables } => {
            law_push_preserves(world, *inner, none, types, input, outside);
            let i = push(*inner, none, types);
            lemma_nothing_pushed(world, eval(world, *inner, input), none);
            lemma_push_variables(*inner, none, types);
            lemma_hidden_less(i, *inner, variables, outside, input);
            lemma_project_same(world, i, *inner, variables, input);
            lemma_filter_passes(
                world,
                project(i, variables),
                filters,
                input,
                eval(world, plan, input),
            );
        },
        Plan::Group { inner, variables, aggregates } => {
            law_push_preserves(world, *inner, none, types, input, outside);
            let i = push(*inner, none, types);
            lemma_nothing_pushed(world, eval(world, *inner, input), none);
            lemma_push_variables(*inner, none, types);
            lemma_hidden_less(i, *inner, variables, outside, input);
            lemma_group(world, i, variables, aggregates, input);
            lemma_group_same(world, i, *inner, variables, aggregates, input);
            lemma_filter_passes(
                world,
                group(i, variables, aggregates),
                filters,
                input,
                eval(world, plan, input),
            );
        },
    }
}

} // verus!
