//! What holds of the solutions of every plan.

use vstd::prelude::*;

use crate::algebra::{Plan, Row};
use crate::bags::{lemma_gather_contains, lemma_keep_contains, lemma_once};
use crate::semantics::{
    added, condition, eval, eval_all, evaluator, extender, grouped, hidden, is_group_of, is_lookup,
    matcher, regular, remains, row_solutions, shown_with, table, value, World,
};
use crate::solutions::{
    compatible, constant, extends, hide_variables, joined_with, lemma_joined_bags_contains,
    lemma_joined_with_contains, lemma_merge_extends, merge, Solution,
};
use crate::variables::{plan_variables, plans_variables};

verus! {

/// A solution extends a base, by some variables at most.
pub open spec fn within(solution: Solution, base: Solution, variables: Set<Seq<char>>) -> bool {
    extends(solution, base) && forall|v: Seq<char>| #[trigger]
        solution.dom().contains(v) ==> base.dom().contains(v) || variables.contains(v)
}

pub open spec fn all_within(
    solutions: Seq<Solution>,
    base: Solution,
    variables: Set<Seq<char>>,
) -> bool {
    forall|i: int| 0 <= i < solutions.len() ==> within(#[trigger] solutions[i], base, variables)
}

pub proof fn lemma_contains_index<A>(items: Seq<A>, i: int)
    requires
        0 <= i < items.len(),
    ensures
        items.contains(items[i]),
{
}

/// Where an item is.
pub proof fn lemma_find<A>(items: Seq<A>, x: A) -> (k: int)
    requires
        items.contains(x),
    ensures
        0 <= k < items.len(),
        items[k] == x,
{
    choose|k: int| 0 <= k < items.len() && items[k] == x
}

proof fn lemma_row_within(variables: Seq<Seq<char>>, row: Row, count: int)
    requires
        count <= variables.len(),
    ensures
        all_within(row_solutions(variables, row, count), Map::empty(), variables.to_set()),
    decreases count,
{
    if count > 0 {
        lemma_row_within(variables, row, count - 1);
        let before = row_solutions(variables, row, count - 1);
        let all = row_solutions(variables, row, count);
        if count <= row.len() && row[count - 1] is Some {
            let v = variables[count - 1];
            let cell: Solution = Map::empty().insert(v, constant(row[count - 1].unwrap()));
            assert(variables.to_set().contains(v));
            assert forall|i: int| 0 <= i < all.len() implies within(
                #[trigger] all[i],
                Map::empty(),
                variables.to_set(),
            ) by {
                lemma_contains_index(all, i);
                let (j, k) = lemma_joined_bags_contains(before, seq![cell], all[i]);
                assert(within(before[j], Map::empty(), variables.to_set()));
            }
        }
    }
}

pub proof fn lemma_table_within(variables: Seq<Seq<char>>, bindings: Seq<Row>)
    ensures
        all_within(table(variables, bindings), Map::empty(), variables.to_set()),
{
    let f = |row: Row| row_solutions(variables, row, variables.len() as int);
    let all = table(variables, bindings);
    assert forall|i: int| 0 <= i < all.len() implies within(
        #[trigger] all[i],
        Map::empty(),
        variables.to_set(),
    ) by {
        lemma_contains_index(all, i);
        lemma_gather_contains(bindings, f, all[i]);
        let j = choose|j: int| 0 <= j < bindings.len() && f(#[trigger] bindings[j]).contains(all[i]);
        lemma_row_within(variables, bindings[j], variables.len() as int);
        let k = lemma_find(f(bindings[j]), all[i]);
        assert(within(f(bindings[j])[k], Map::empty(), variables.to_set()));
    }
}

/// Joining a base with solutions over some variables.
pub proof fn lemma_joined_with_within(
    base: Solution,
    others: Seq<Solution>,
    variables: Set<Seq<char>>,
)
    requires
        forall|i: int|
            0 <= i < others.len() ==> (#[trigger] others[i]).dom().subset_of(variables),
    ensures
        all_within(joined_with(base, others), base, variables),
{
    let all = joined_with(base, others);
    assert forall|i: int| 0 <= i < all.len() implies within(#[trigger] all[i], base, variables) by {
        lemma_contains_index(all, i);
        lemma_joined_with_contains(base, others, all[i]);
        let k = choose|k: int|
            0 <= k < others.len() && compatible(base, #[trigger] others[k]) && all[i] == merge(
                base,
                others[k],
            );
        lemma_merge_extends(base, others[k]);
        assert(others[k].dom().subset_of(variables));
    }
}

/// What solutions add to the input are values of the variables in question.
pub proof fn lemma_added_within(
    solutions: Seq<Solution>,
    input: Solution,
    variables: Set<Seq<char>>,
)
    requires
        all_within(solutions, input, variables),
    ensures
        forall|s: Solution| #[trigger]
            added(solutions, input).contains(s) ==> s.dom().subset_of(variables),
{
    let f = |solution: Solution| seq![hide_variables(solution, input.dom())];
    assert forall|s: Solution| #[trigger] added(solutions, input).contains(s) implies
        s.dom().subset_of(variables) by {
        lemma_gather_contains(solutions, f, s);
        let i = choose|i: int| 0 <= i < solutions.len() && f(#[trigger] solutions[i]).contains(s);
        assert(s == hide_variables(solutions[i], input.dom()));
        assert(within(solutions[i], input, variables));
    }
}

/// The solutions of a plan extend its input, by the variables that the plan
/// uses at most.
#[verifier::spinoff_prover]
pub proof fn lemma_eval_within(world: World, plan: Plan, input: Solution)
    requires
        regular(world),
    ensures
        all_within(eval(world, plan, input), input, plan_variables(plan)),
    decreases plan,
{
    let all = eval(world, plan, input);
    let variables = plan_variables(plan);
    match plan {
        Plan::QuadPattern { .. }
        | Plan::Path { .. }
        | Plan::Graph { .. }
        | Plan::Service { .. } => {
            let atoms = (world.atom)(plan);
            assert forall|i: int| 0 <= i < atoms.len() implies (#[trigger] atoms[i]).dom().subset_of(
                variables,
            ) by {
                assert(is_lookup(plan));
                assert((world.atom)(plan)[i].dom().subset_of(plan_variables(plan)));
            }
            lemma_joined_with_within(input, atoms, variables);
        },
        Plan::Values { variables: columns, bindings } => {
            lemma_table_within(columns, bindings);
            let rows = table(columns, bindings);
            assert forall|i: int| 0 <= i < rows.len() implies (#[trigger] rows[i]).dom().subset_of(
                variables,
            ) by {
                assert(within(rows[i], Map::empty(), columns.to_set()));
            }
            lemma_joined_with_within(input, rows, variables);
        },
        Plan::Join { left, right, .. } => {
            lemma_eval_within(world, *left, input);
            lemma_eval_within(world, *right, input);
            let (l, r) = (eval(world, *left, input), eval(world, *right, input));
            assert forall|i: int| 0 <= i < all.len() implies within(
                #[trigger] all[i],
                input,
                variables,
            ) by {
                lemma_contains_index(all, i);
                let (j, k) = lemma_joined_bags_contains(l, r, all[i]);
                assert(within(l[j], input, plan_variables(*left)));
                assert(within(r[k], input, plan_variables(*right)));
                lemma_merge_extends(l[j], r[k]);
            }
        },
        Plan::Lateral { left, right } => {
            lemma_eval_within(world, *left, input);
            let l = eval(world, *left, input);
            let f = evaluator(world, *right);
            assert forall|i: int| 0 <= i < all.len() implies within(
                #[trigger] all[i],
                input,
                variables,
            ) by {
                lemma_contains_index(all, i);
                lemma_gather_contains(l, f, all[i]);
                let j = choose|j: int| 0 <= j < l.len() && f(#[trigger] l[j]).contains(all[i]);
                lemma_eval_within(world, *right, l[j]);
                let k = lemma_find(f(l[j]), all[i]);
                assert(within(l[j], input, plan_variables(*left)));
                assert(within(f(l[j])[k], l[j], plan_variables(*right)));
            }
        },
        Plan::LeftJoin { left, right, expression, .. } => {
            lemma_eval_within(world, *left, input);
            lemma_eval_within(world, *right, input);
            let (l, r) = (eval(world, *left, input), eval(world, *right, input));
            let ok = condition(world, expression);
            let f = matcher(world, expression, r);
            assert forall|i: int| 0 <= i < all.len() implies within(
                #[trigger] all[i],
                input,
                variables,
            ) by {
                lemma_contains_index(all, i);
                lemma_gather_contains(l, f, all[i]);
                let j = choose|j: int| 0 <= j < l.len() && f(#[trigger] l[j]).contains(all[i]);
                assert(within(l[j], input, plan_variables(*left)));
                if all[i] != l[j] {
                    lemma_keep_contains(joined_with(l[j], r), ok, all[i]);
                    lemma_joined_with_contains(l[j], r, all[i]);
                    let k = choose|k: int|
                        0 <= k < r.len() && compatible(l[j], #[trigger] r[k]) && all[i] == merge(
                            l[j],
                            r[k],
                        );
                    assert(within(r[k], input, plan_variables(*right)));
                    lemma_merge_extends(l[j], r[k]);
                }
            }
        },
        Plan::Minus { left, right, .. } => {
            lemma_eval_within(world, *left, input);
            let (l, r) = (eval(world, *left, input), eval(world, *right, input));
            let ok = remains(r, input);
            assert forall|i: int| 0 <= i < all.len() implies within(
                #[trigger] all[i],
                input,
                variables,
            ) by {
                lemma_contains_index(all, i);
                lemma_keep_contains(l, ok, all[i]);
                let j = choose|j: int| 0 <= j < l.len() && l[j] == all[i];
                assert(within(l[j], input, plan_variables(*left)));
            }
        },
        Plan::Filter { inner, expression } => {
            lemma_eval_within(world, *inner, input);
            let l = eval(world, *inner, input);
            let ok = condition(world, expression);
            assert forall|i: int| 0 <= i < all.len() implies within(
                #[trigger] all[i],
                input,
                variables,
            ) by {
                lemma_contains_index(all, i);
                lemma_keep_contains(l, ok, all[i]);
                let j = choose|j: int| 0 <= j < l.len() && l[j] == all[i];
                assert(within(l[j], input, plan_variables(*inner)));
            }
        },
        Plan::Extend { inner, variable, expression } => {
            lemma_eval_within(world, *inner, input);
            let l = eval(world, *inner, input);
            let f = extender(world, variable, expression);
            assert forall|i: int| 0 <= i < all.len() implies within(
                #[trigger] all[i],
                input,
                variables,
            ) by {
                lemma_contains_index(all, i);
                lemma_gather_contains(l, f, all[i]);
                let j = choose|j: int| 0 <= j < l.len() && f(#[trigger] l[j]).contains(all[i]);
                assert(within(l[j], input, plan_variables(*inner)));
                match value(world, expression, l[j]) {
                    Some(term) => {
                        let cell: Solution = Map::empty().insert(variable, term);
                        assert(all[i] == merge(l[j], cell));
                        lemma_merge_extends(l[j], cell);
                    },
                    None => {},
                }
            }
        },
        Plan::Union { inner } => {
            lemma_eval_all_within(world, inner, input);
        },
        Plan::OrderBy { inner, .. } => {
            lemma_eval_within(world, *inner, input);
        },
        Plan::Distinct { inner } | Plan::Reduced { inner } => {
            lemma_eval_within(world, *inner, input);
            let l = eval(world, *inner, input);
            lemma_once(l);
            assert forall|i: int| 0 <= i < all.len() implies within(
                #[trigger] all[i],
                input,
                variables,
            ) by {
                lemma_contains_index(all, i);
                assert(l.contains(all[i]));
                let j = choose|j: int| 0 <= j < l.len() && l[j] == all[i];
                assert(within(l[j], input, variables));
            }
        },
        Plan::Slice { inner, start, length } => {
            lemma_eval_within(world, *inner, input);
            let shown = added(eval(world, *inner, input), input);
            let kept = (world.slice)(start, length, shown.to_multiset());
            lemma_added_within(eval(world, *inner, input), input, variables);
            shown.to_multiset_ensures();
            assert forall|i: int| 0 <= i < kept.len() implies (#[trigger] kept[i]).dom().subset_of(
                variables,
            ) by {
                assert(shown.to_multiset().count((world.slice)(
                    start,
                    length,
                    shown.to_multiset(),
                )[i]) > 0);
                assert(shown.contains(kept[i]));
            }
            lemma_joined_with_within(input, kept, variables);
        },
        Plan::Project { inner, variables: columns } => {
            let local = hidden(*inner, columns);
            let base = hide_variables(input, local);
            lemma_eval_within(world, *inner, base);
            let l = eval(world, *inner, base);
            let f = shown_with(input, local);
            assert forall|i: int| 0 <= i < all.len() implies within(
                #[trigger] all[i],
                input,
                variables,
            ) by {
                lemma_contains_index(all, i);
                lemma_gather_contains(l, f, all[i]);
                let j = choose|j: int| 0 <= j < l.len() && f(#[trigger] l[j]).contains(all[i]);
                assert(within(l[j], base, plan_variables(*inner)));
                assert(all[i] == merge(input, hide_variables(l[j], local)));
                lemma_merge_extends(input, hide_variables(l[j], local));
            }
        },
        Plan::Group { inner, variables: columns, aggregates } => {
            let base = hide_variables(input, hidden(*inner, columns));
            let bag = grouped(eval(world, *inner, base), base, columns).to_multiset();
            let groups = (world.group)(columns, aggregates, bag);
            assert forall|i: int| 0 <= i < groups.len() implies (
            #[trigger] groups[i]).dom().subset_of(variables) by {
                assert(is_group_of(
                    (world.group)(columns, aggregates, bag)[i],
                    columns,
                    aggregates,
                    bag,
                ));
            }
            lemma_joined_with_within(input, groups, variables);
        },
    }
}

proof fn lemma_eval_all_within(world: World, plans: Seq<Plan>, input: Solution)
    requires
        regular(world),
    ensures
        all_within(eval_all(world, plans, input), input, plans_variables(plans)),
    decreases plans,
{
    if plans.len() > 0 {
        let shorter = plans.drop_last();
        let last = plans[plans.len() - 1];
        lemma_eval_all_within(world, shorter, input);
        lemma_eval_within(world, last, input);
        let (a, b) = (eval_all(world, shorter, input), eval(world, last, input));
        let all = a + b;
        assert forall|v: Seq<char>| #[trigger] plans_variables(shorter).contains(v) implies
            plans_variables(plans).contains(v) by {
            let i = choose|i: int|
                0 <= i < shorter.len() && plan_variables(#[trigger] shorter[i]).contains(v);
            assert(plan_variables(plans[i]).contains(v));
        }
        assert forall|v: Seq<char>| #[trigger] plan_variables(last).contains(v) implies
            plans_variables(plans).contains(v) by {
            assert(plan_variables(plans[plans.len() - 1]).contains(v));
        }
        assert forall|i: int| 0 <= i < all.len() implies within(
            #[trigger] all[i],
            input,
            plans_variables(plans),
        ) by {
            if i < a.len() {
                assert(within(a[i], input, plans_variables(shorter)));
            } else {
                assert(within(b[i - a.len()], input, plan_variables(last)));
            }
        }
    }
}

} // verus!
