//! Where the solutions of a plan come from.

use vstd::prelude::*;

use crate::algebra::{AggregateExpr, Expr, Plan, Row};
use crate::bags::{keep, lemma_gather_contains, lemma_keep_contains};
use crate::eval_basics::{lemma_eval_within, lemma_find, within};
use crate::semantics::{
    added, condition, eval, eval_all, evaluator, extender, grouped, hidden, holds, is_group_of,
    matcher, regular, row_solutions, shown_with, table, value, without_all, World,
};
use crate::solutions::{
    compatible, hide_variables, joined_with, lemma_joined_bags_contains, lemma_joined_with_contains,
    lookup, merge, merged, Solution,
};
use crate::variables::{aggregate_names, plan_variables};

verus! {

/// A solution of a lookup or table extends the input by one match.
pub proof fn lemma_joined_origin(input: Solution, others: Seq<Solution>, t: Solution) -> (k: int)
    requires
        joined_with(input, others).contains(t),
    ensures
        0 <= k < others.len(),
        compatible(input, others[k]),
        t == merge(input, others[k]),
{
    lemma_joined_with_contains(input, others, t);
    choose|k: int|
        0 <= k < others.len() && compatible(input, #[trigger] others[k]) && t == merge(
            input,
            others[k],
        )
}

pub proof fn lemma_join_origin(
    world: World,
    left: Plan,
    right: Plan,
    input: Solution,
    keys: Seq<Seq<char>>,
    t: Solution,
) -> (pair: (Solution, Solution))
    requires
        eval(
            world,
            (Plan::Join { left: Box::new(left), right: Box::new(right), keys }),
            input,
        ).contains(t),
    ensures
        eval(world, left, input).contains(pair.0),
        eval(world, right, input).contains(pair.1),
        compatible(pair.0, pair.1),
        t == merge(pair.0, pair.1),
{
    let (l, r) = (eval(world, left, input), eval(world, right, input));
    let (j, k) = lemma_joined_bags_contains(l, r, t);
    assert(l.contains(l[j]) && r.contains(r[k]));
    (l[j], r[k])
}

pub proof fn lemma_lateral_origin(
    world: World,
    left: Plan,
    right: Plan,
    input: Solution,
    t: Solution,
) -> (s: Solution)
    requires
        eval(
            world,
            (Plan::Lateral { left: Box::new(left), right: Box::new(right) }),
            input,
        ).contains(t),
    ensures
        eval(world, left, input).contains(s),
        eval(world, right, s).contains(t),
{
    let l = eval(world, left, input);
    let f = evaluator(world, right);
    lemma_gather_contains(l, f, t);
    let j = choose|j: int| 0 <= j < l.len() && f(#[trigger] l[j]).contains(t);
    assert(l.contains(l[j]));
    l[j]
}

/// A solution of a left join is one of the left side, or a match of it.
pub proof fn lemma_left_join_origin(
    world: World,
    left: Plan,
    right: Plan,
    expression: Expr,
    input: Solution,
    keys: Seq<Seq<char>>,
    t: Solution,
) -> (pair: (Solution, Option<Solution>))
    requires
        eval(
            world,
            (Plan::LeftJoin {
                left: Box::new(left),
                right: Box::new(right),
                expression,
                keys,
            }),
            input,
        ).contains(t),
    ensures
        eval(world, left, input).contains(pair.0),
        match pair.1 {
            Some(x) => eval(world, right, input).contains(x) && compatible(pair.0, x) && t == merge(
                pair.0,
                x,
            ) && holds(world, expression, t),
            None => t == pair.0,
        },
{
    let (l, r) = (eval(world, left, input), eval(world, right, input));
    let ok = condition(world, expression);
    let f = matcher(world, expression, r);
    lemma_gather_contains(l, f, t);
    let j = choose|j: int| 0 <= j < l.len() && f(#[trigger] l[j]).contains(t);
    assert(l.contains(l[j]));
    let matches = keep(joined_with(l[j], r), ok);
    if matches.len() == 0 {
        (l[j], None)
    } else {
        lemma_keep_contains(joined_with(l[j], r), ok, t);
        let k = lemma_joined_origin(l[j], r, t);
        assert(r.contains(r[k]));
        (l[j], Some(r[k]))
    }
}

pub proof fn lemma_extend_origin(
    world: World,
    inner: Plan,
    variable: Seq<char>,
    expression: Expr,
    input: Solution,
    t: Solution,
) -> (s: Solution)
    requires
        eval(world, (Plan::Extend { inner: Box::new(inner), variable, expression }), input).contains(
            t,
        ),
    ensures
        eval(world, inner, input).contains(s),
        match value(world, expression, s) {
            Some(term) => {
                let cell: Solution = Map::empty().insert(variable, term);
                compatible(s, cell) && t == merge(s, cell)
            },
            None => t == s,
        },
{
    let l = eval(world, inner, input);
    let f = extender(world, variable, expression);
    lemma_gather_contains(l, f, t);
    let j = choose|j: int| 0 <= j < l.len() && f(#[trigger] l[j]).contains(t);
    assert(l.contains(l[j]));
    match value(world, expression, l[j]) {
        Some(term) => {
            let cell: Solution = Map::empty().insert(variable, term);
            assert(f(l[j]) == merged(l[j], cell));
        },
        None => {
            assert(f(l[j]) == seq![l[j]]);
        },
    }
    l[j]
}

pub proof fn lemma_union_origin(world: World, plans: Seq<Plan>, input: Solution, t: Solution) -> (k:
    int)
    requires
        eval_all(world, plans, input).contains(t),
    ensures
        0 <= k < plans.len(),
        eval(world, plans[k], input).contains(t),
    decreases plans.len(),
{
    let all = eval_all(world, plans, input);
    let n = lemma_find(all, t);
    let before = eval_all(world, plans.drop_last(), input);
    let last = eval(world, plans[plans.len() - 1], input);
    if n < before.len() {
        assert(before[n] == t);
        let k = lemma_union_origin(world, plans.drop_last(), input, t);
        k
    } else {
        assert(last[n - before.len()] == t);
        plans.len() - 1
    }
}

/// A solution without some variables comes from one that has them.
pub proof fn lemma_without_origin(
    solutions: Seq<Solution>,
    gone: Set<Seq<char>>,
    t: Solution,
) -> (s: Solution)
    requires
        without_all(solutions, gone).contains(t),
    ensures
        solutions.contains(s),
        t == hide_variables(s, gone),
{
    let f = |solution: Solution| seq![hide_variables(solution, gone)];
    lemma_gather_contains(solutions, f, t);
    let j = choose|j: int| 0 <= j < solutions.len() && f(#[trigger] solutions[j]).contains(t);
    assert(solutions.contains(solutions[j]));
    assert(f(solutions[j]) == seq![hide_variables(solutions[j], gone)]);
    solutions[j]
}

/// A range holds solutions of the plan.
pub proof fn lemma_slice_origin(
    world: World,
    inner: Plan,
    start: usize,
    length: Option<usize>,
    input: Solution,
    t: Solution,
)
    requires
        regular(world),
        eval(world, (Plan::Slice { inner: Box::new(inner), start, length }), input).contains(t),
    ensures
        eval(world, inner, input).contains(t),
{
    let all = eval(world, inner, input);
    let bag = added(all, input);
    let kept = (world.slice)(start, length, bag.to_multiset());
    let k = lemma_joined_origin(input, kept, t);
    bag.to_multiset_ensures();
    assert(bag.to_multiset().count((world.slice)(start, length, bag.to_multiset())[k]) > 0);
    assert(bag.contains(kept[k]));
    let s = lemma_without_origin(all, input.dom(), kept[k]);
    lemma_eval_within(world, inner, input);
    let n = lemma_find(all, s);
    assert(within(s, input, plan_variables(inner)));
    assert(merge(input, hide_variables(s, input.dom())) =~= s);
}

pub proof fn lemma_project_origin(
    world: World,
    inner: Plan,
    variables: Seq<Seq<char>>,
    input: Solution,
    t: Solution,
) -> (s: Solution)
    requires
        eval(world, (Plan::Project { inner: Box::new(inner), variables }), input).contains(t),
    ensures
        eval(world, inner, hide_variables(input, hidden(inner, variables))).contains(s),
        compatible(input, hide_variables(s, hidden(inner, variables))),
        t == merge(input, hide_variables(s, hidden(inner, variables))),
{
    let local = hidden(inner, variables);
    let l = eval(world, inner, hide_variables(input, local));
    let f = shown_with(input, local);
    lemma_gather_contains(l, f, t);
    let j = choose|j: int| 0 <= j < l.len() && f(#[trigger] l[j]).contains(t);
    assert(l.contains(l[j]));
    assert(f(l[j]) == merged(input, hide_variables(l[j], local)));
    l[j]
}

/// A solution of a grouping is a group, joined with the input; with grouping
/// variables it has the values of a member.
pub proof fn lemma_group_origin(
    world: World,
    inner: Plan,
    variables: Seq<Seq<char>>,
    aggregates: Seq<(Seq<char>, AggregateExpr)>,
    input: Solution,
    t: Solution,
) -> (pair: (Solution, Solution))
    requires
        regular(world),
        eval(
            world,
            (Plan::Group { inner: Box::new(inner), variables, aggregates }),
            input,
        ).contains(t),
    ensures
        compatible(input, pair.0),
        t == merge(input, pair.0),
        pair.0.dom().subset_of(
            variables.to_set().union(aggregate_names(aggregates)),
        ),
        variables.len() > 0 ==> {
            &&& eval(world, inner, hide_variables(input, hidden(inner, variables))).contains(pair.1)
            &&& forall|v: Seq<char>| #[trigger]
                variables.contains(v) && !aggregate_names(aggregates).contains(v)
                    ==> lookup(pair.0, v) == lookup(pair.1, v)
        },
{
    let base = hide_variables(input, hidden(inner, variables));
    let all = eval(world, inner, base);
    let bag = grouped(all, base, variables);
    let groups = (world.group)(variables, aggregates, bag.to_multiset());
    let k = lemma_joined_origin(input, groups, t);
    let group = groups[k];
    assert(is_group_of(
        (world.group)(variables, aggregates, bag.to_multiset())[k],
        variables,
        aggregates,
        bag.to_multiset(),
    ));
    if variables.len() > 0 {
        let member = choose|member: Solution| #[trigger]
            bag.to_multiset().count(member) > 0 && forall|v: Seq<char>| #[trigger]
                variables.contains(v) && !aggregate_names(aggregates).contains(v)
                    ==> lookup(group, v) == lookup(member, v);
        bag.to_multiset_ensures();
        assert(bag.contains(member));
        let gone = base.dom().difference(variables.to_set());
        let s = lemma_without_origin(all, gone, member);
        assert forall|v: Seq<char>| #[trigger]
            variables.contains(v) && !aggregate_names(aggregates).contains(v)
            implies lookup(group, v) == lookup(s, v) by {
            assert(lookup(group, v) == lookup(member, v));
        }
        (group, s)
    } else {
        (group, arbitrary())
    }
}

/// A table's solution comes from a row.
pub proof fn lemma_table_origin(variables: Seq<Seq<char>>, bindings: Seq<Row>, t: Solution) -> (r:
    int)
    requires
        table(variables, bindings).contains(t),
    ensures
        0 <= r < bindings.len(),
        row_solutions(variables, bindings[r], variables.len() as int).contains(t),
{
    let f = |row: Row| row_solutions(variables, row, variables.len() as int);
    lemma_gather_contains(bindings, f, t);
    let r = choose|r: int| 0 <= r < bindings.len() && f(#[trigger] bindings[r]).contains(t);
    assert(f(bindings[r]) == row_solutions(variables, bindings[r], variables.len() as int));
    r
}

} // verus!
