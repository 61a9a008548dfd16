//! Plans with the same solutions can stand for each other.

use vstd::prelude::*;

use crate::algebra::{AggregateExpr, Expr, Plan};
use crate::bags::{
    gather, keep, lemma_gather_order, lemma_gather_replace, lemma_keep_equal, lemma_keep_order,
    lemma_same_concat, lemma_same_items, same,
};
use crate::eval_basics::{lemma_contains_index, lemma_eval_within, lemma_find, within};
use crate::plan_laws::lemma_same_condition;
use crate::semantics::{
    condition, eval, eval_all, evaluator, excluded, extended, extender, hidden, holds, matcher,
    or_itself, regular, remains, shares_variable, shown_with, value, without_all, World,
};
use crate::solutions::{compatible, hide_variables, joined_with, merged, Solution};
use crate::variables::plan_variables;

verus! {

pub proof fn lemma_lateral_same(
    world: World,
    l1: Seq<Solution>,
    l2: Seq<Solution>,
    r1: Plan,
    r2: Plan,
)
    requires
        same(l1, l2),
        forall|s: Solution| #[trigger]
            l2.contains(s) ==> same(eval(world, r1, s), eval(world, r2, s)),
    ensures
        same(gather(l1, evaluator(world, r1)), gather(l2, evaluator(world, r2))),
{
    let (f, g) = (evaluator(world, r1), evaluator(world, r2));
    assert forall|i: int| 0 <= i < l2.len() implies same(f(#[trigger] l2[i]), g(l2[i])) by {
        lemma_contains_index(l2, i);
    }
    lemma_gather_replace(l1, l2, f, g);
}

/// The matches of one solution, among the same others and under a condition
/// that is the same on them.
pub proof fn lemma_match_same(
    world: World,
    s: Solution,
    r1: Seq<Solution>,
    r2: Seq<Solution>,
    e1: Expr,
    e2: Expr,
)
    requires
        same(r1, r2),
        forall|x: Solution| #[trigger]
            joined_with(s, r2).contains(x) ==> holds(world, e1, x) == holds(world, e2, x),
    ensures
        same(matcher(world, e1, r1)(s), matcher(world, e2, r2)(s)),
{
    let f = |other: Solution| merged(s, other);
    lemma_gather_order(r1, r2, f);
    let (a, b) = (joined_with(s, r1), joined_with(s, r2));
    lemma_keep_order(a, b, condition(world, e1));
    assert forall|i: int| 0 <= i < b.len() implies holds(world, e1, #[trigger] b[i]) == holds(
        world,
        e2,
        b[i],
    ) by {
        lemma_contains_index(b, i);
    }
    lemma_same_condition(world, b, e1, e2);
    let (m, n) = (keep(a, condition(world, e1)), keep(b, condition(world, e2)));
    lemma_same_items(m, n);
    assert(matcher(world, e1, r1)(s) == or_itself(s, m));
    assert(matcher(world, e2, r2)(s) == or_itself(s, n));
}

pub proof fn lemma_left_join_same(
    world: World,
    l1: Seq<Solution>,
    l2: Seq<Solution>,
    r1: Seq<Solution>,
    r2: Seq<Solution>,
    e1: Expr,
    e2: Expr,
)
    requires
        same(l1, l2),
        same(r1, r2),
        forall|s: Solution, x: Solution|
            l2.contains(s) && #[trigger] joined_with(s, r2).contains(x) ==> holds(world, e1, x)
                == holds(world, e2, x),
    ensures
        same(gather(l1, matcher(world, e1, r1)), gather(l2, matcher(world, e2, r2))),
{
    let (f, g) = (matcher(world, e1, r1), matcher(world, e2, r2));
    assert forall|i: int| 0 <= i < l2.len() implies same(f(#[trigger] l2[i]), g(l2[i])) by {
        lemma_contains_index(l2, i);
        lemma_match_same(world, l2[i], r1, r2, e1, e2);
    }
    lemma_gather_replace(l1, l2, f, g);
}

pub proof fn lemma_excluded_same(
    s: Solution,
    r1: Seq<Solution>,
    r2: Seq<Solution>,
    input: Solution,
)
    requires
        same(r1, r2),
        excluded(s, r1, input),
    ensures
        excluded(s, r2, input),
{
    lemma_same_items(r1, r2);
    let i = choose|i: int|
        0 <= i < r1.len() && compatible(s, #[trigger] r1[i]) && shares_variable(
            s,
            r1[i],
            input,
        );
    lemma_contains_index(r1, i);
    let j = lemma_find(r2, r1[i]);
    assert(compatible(s, r2[j]));
}

pub proof fn lemma_minus_same(
    l1: Seq<Solution>,
    l2: Seq<Solution>,
    r1: Seq<Solution>,
    r2: Seq<Solution>,
    input: Solution,
)
    requires
        same(l1, l2),
        same(r1, r2),
    ensures
        same(keep(l1, remains(r1, input)), keep(l2, remains(r2, input))),
{
    let (f, g) = (remains(r1, input), remains(r2, input));
    lemma_keep_order(l1, l2, f);
    assert forall|i: int| 0 <= i < l2.len() implies f(#[trigger] l2[i]) == g(l2[i]) by {
        if excluded(l2[i], r1, input) {
            lemma_excluded_same(l2[i], r1, r2, input);
        }
        if excluded(l2[i], r2, input) {
            lemma_excluded_same(l2[i], r2, r1, input);
        }
    }
    lemma_keep_equal(l2, f, g);
}

pub proof fn lemma_filter_same(
    world: World,
    l1: Seq<Solution>,
    l2: Seq<Solution>,
    e1: Expr,
    e2: Expr,
)
    requires
        same(l1, l2),
        forall|s: Solution| #[trigger]
            l2.contains(s) ==> holds(world, e1, s) == holds(world, e2, s),
    ensures
        same(keep(l1, condition(world, e1)), keep(l2, condition(world, e2))),
{
    lemma_keep_order(l1, l2, condition(world, e1));
    assert forall|i: int| 0 <= i < l2.len() implies holds(world, e1, #[trigger] l2[i]) == holds(
        world,
        e2,
        l2[i],
    ) by {
        lemma_contains_index(l2, i);
    }
    lemma_same_condition(world, l2, e1, e2);
}

pub proof fn lemma_extend_same(
    world: World,
    l1: Seq<Solution>,
    l2: Seq<Solution>,
    variable: Seq<char>,
    e1: Expr,
    e2: Expr,
)
    requires
        same(l1, l2),
        forall|s: Solution| #[trigger]
            l2.contains(s) ==> value(world, e1, s) == value(world, e2, s),
    ensures
        same(
            gather(l1, extender(world, variable, e1)),
            gather(l2, extender(world, variable, e2)),
        ),
{
    let (f, g) = (extender(world, variable, e1), extender(world, variable, e2));
    assert forall|i: int| 0 <= i < l2.len() implies same(f(#[trigger] l2[i]), g(l2[i])) by {
        lemma_contains_index(l2, i);
        assert(f(l2[i]) == extended(l2[i], variable, value(world, e1, l2[i])));
        assert(g(l2[i]) == extended(l2[i], variable, value(world, e2, l2[i])));
    }
    lemma_gather_replace(l1, l2, f, g);
}

pub proof fn lemma_without_same(a: Seq<Solution>, b: Seq<Solution>, gone: Set<Seq<char>>)
    requires
        same(a, b),
    ensures
        without_all(a, gone).to_multiset() == without_all(b, gone).to_multiset(),
{
    lemma_gather_order(a, b, |solution: Solution| seq![hide_variables(solution, gone)]);
}

/// A projection of another plan with the same solutions.
pub proof fn lemma_project_same(
    world: World,
    p1: Plan,
    p2: Plan,
    variables: Seq<Seq<char>>,
    input: Solution,
)
    requires
        regular(world),
        same(eval(world, p1, input), eval(world, p2, input)),
        hidden(p1, variables).disjoint(input.dom()),
        hidden(p2, variables).disjoint(input.dom()),
    ensures
        same(
            eval(world, (Plan::Project { inner: Box::new(p1), variables }), input),
            eval(world, (Plan::Project { inner: Box::new(p2), variables }), input),
        ),
{
    let (a, b) = (hidden(p1, variables), hidden(p2, variables));
    assert(hide_variables(input, a) =~= input);
    assert(hide_variables(input, b) =~= input);
    let (l1, l2) = (eval(world, p1, input), eval(world, p2, input));
    let (f, g) = (shown_with(input, a), shown_with(input, b));
    lemma_same_items(l1, l2);
    lemma_eval_within(world, p1, input);
    lemma_eval_within(world, p2, input);
    assert forall|i: int| 0 <= i < l2.len() implies same(f(#[trigger] l2[i]), g(l2[i])) by {
        let s = l2[i];
        lemma_contains_index(l2, i);
        let k = lemma_find(l1, s);
        assert(within(l1[k], input, plan_variables(p1)));
        assert(within(l2[i], input, plan_variables(p2)));
        assert(hide_variables(s, a) =~= hide_variables(s, b)) by {
            assert forall|v: Seq<char>| s.dom().contains(v) implies a.contains(v) == b.contains(
                v,
            ) by {
                if a.contains(v) {
                    assert(!input.dom().contains(v));
                }
                if b.contains(v) {
                    assert(!input.dom().contains(v));
                }
            }
        }
        assert(f(s) == merged(input, hide_variables(s, a)));
        assert(g(s) == merged(input, hide_variables(s, b)));
    }
    lemma_gather_replace(l1, l2, f, g);
}

/// A grouping of another plan with the same solutions.
pub proof fn lemma_group_same(
    world: World,
    p1: Plan,
    p2: Plan,
    variables: Seq<Seq<char>>,
    aggregates: Seq<(Seq<char>, AggregateExpr)>,
    input: Solution,
)
    requires
        same(eval(world, p1, input), eval(world, p2, input)),
        hidden(p1, variables).disjoint(input.dom()),
        hidden(p2, variables).disjoint(input.dom()),
    ensures
        eval(world, (Plan::Group { inner: Box::new(p1), variables, aggregates }), input) == eval(
            world,
            (Plan::Group { inner: Box::new(p2), variables, aggregates }),
            input,
        ),
{
    assert(hide_variables(input, hidden(p1, variables)) =~= input);
    assert(hide_variables(input, hidden(p2, variables)) =~= input);
    lemma_without_same(
        eval(world, p1, input),
        eval(world, p2, input),
        input.dom().difference(variables.to_set()),
    );
}

/// A union of plans with the same solutions, one by one.
pub proof fn lemma_union_same(world: World, a: Seq<Plan>, b: Seq<Plan>, input: Solution)
    requires
        a.len() == b.len(),
        forall|i: int|
            0 <= i < a.len() ==> same(eval(world, #[trigger] a[i], input), eval(
                world,
                b[i],
                input,
            )),
    ensures
        same(eval_all(world, a, input), eval_all(world, b, input)),
    decreases a.len(),
{
    if a.len() > 0 {
        let n = a.len() - 1;
        let (c, d) = (a.drop_last(), b.drop_last());
        assert forall|i: int| 0 <= i < c.len() implies same(
            eval(world, #[trigger] c[i], input),
            eval(world, d[i], input),
        ) by {
            assert(same(eval(world, a[i], input), eval(world, b[i], input)));
        }
        lemma_union_same(world, c, d, input);
        assert(same(eval(world, a[n], input), eval(world, b[n], input)));
        lemma_same_concat(
            eval_all(world, c, input),
            eval(world, a[n], input),
            eval_all(world, d, input),
            eval(world, b[n], input),
        );
    }
}

} // verus!
