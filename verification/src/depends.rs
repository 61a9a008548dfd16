//! A plan and an expression depend only on the variables that they use.

use vstd::prelude::*;

use crate::algebra::{Expr, Plan};
use crate::bags::{lemma_gather_equal, lemma_gather_mapped, lemma_keep_mapped, lemma_once_mapped};
use crate::eval_basics::{
    all_within, lemma_added_within, lemma_contains_index, lemma_eval_within, lemma_table_within,
    within,
};
use crate::semantics::{
    added, condition, eval, eval_all, evaluator, excluded, extender, grouped, hidden, holds,
    is_group_of, is_lookup, matcher, regular, remains, shares_variable, shown_with, table, truths,
    value, values, without_all, World,
};
use crate::solutions::{
    agree, compatible, hide_variables, joined_bags, joined_with, lemma_joined_with_contains,
    lemma_merge_extends, lookup, merge, merged, Solution,
};
use crate::variables::{expr_variables, exprs_variables, plan_variables, plans_variables};

verus! {

/// A solution moved to another base: it keeps its values of some variables.
pub open spec fn moved(solution: Solution, base: Solution, variables: Set<Seq<char>>) -> Solution {
    merge(base, solution.restrict(variables))
}

pub open spec fn mover(base: Solution, variables: Set<Seq<char>>) -> spec_fn(Solution) -> Solution {
    |solution: Solution| moved(solution, base, variables)
}

/// What moving a solution does to the values of each variable.
proof fn lemma_moved(
    solution: Solution,
    from: Solution,
    to: Solution,
    variables: Set<Seq<char>>,
)
    requires
        agree(from, to, variables),
        within(solution, from, variables),
    ensures
        within(moved(solution, to, variables), to, variables),
        agree(solution, moved(solution, to, variables), variables),
        forall|v: Seq<char>|
            !variables.contains(v) ==> #[trigger] lookup(moved(solution, to, variables), v)
                == lookup(to, v),
{
    let new = moved(solution, to, variables);
    assert forall|v: Seq<char>| #[trigger] variables.contains(v) implies lookup(solution, v)
        == lookup(new, v) by {
        assert(lookup(from, v) == lookup(to, v));
        if !solution.dom().contains(v) {
            assert(!from.dom().contains(v));
        }
    }
    assert forall|v: Seq<char>| #[trigger] to.dom().contains(v) implies new.dom().contains(v)
        && new[v] == to[v] by {
        if variables.contains(v) {
            assert(lookup(from, v) == lookup(to, v));
            assert(from.dom().contains(v));
        }
    }
}

/// Solutions are compatible before and after they are moved.
proof fn lemma_moved_pair(
    left: Solution,
    right: Solution,
    from: Solution,
    to: Solution,
    variables: Set<Seq<char>>,
)
    requires
        agree(from, to, variables),
        within(left, from, variables),
        within(right, from, variables),
    ensures
        merged(moved(left, to, variables), moved(right, to, variables)) == merged(
            left,
            right,
        ).map_values(mover(to, variables)),
        moved(left, to, variables) == moved(right, to, variables) ==> left == right,
        shares_variable(moved(left, to, variables), moved(right, to, variables), to)
            == shares_variable(left, right, from),
        compatible(moved(left, to, variables), moved(right, to, variables)) == compatible(
            left,
            right,
        ),
{
    let (l, r) = (moved(left, to, variables), moved(right, to, variables));
    lemma_moved(left, from, to, variables);
    lemma_moved(right, from, to, variables);
    if compatible(left, right) {
        assert forall|v: Seq<char>| #[trigger]
            l.dom().contains(v) && #[trigger] r.dom().contains(v) implies l[v] == r[v] by {
            if variables.contains(v) {
                assert(lookup(left, v) == lookup(l, v));
                assert(lookup(right, v) == lookup(r, v));
            } else {
                assert(lookup(l, v) == lookup(to, v));
                assert(lookup(r, v) == lookup(to, v));
            }
        }
        assert(merge(l, r) =~= moved(merge(left, right), to, variables)) by {
            assert forall|v: Seq<char>| lookup(merge(l, r), v) == #[trigger] lookup(
                moved(merge(left, right), to, variables),
                v,
            ) by {
                if variables.contains(v) {
                    assert(lookup(left, v) == lookup(l, v));
                    assert(lookup(right, v) == lookup(r, v));
                    assert(lookup(from, v) == lookup(to, v));
                } else {
                    assert(lookup(l, v) == lookup(to, v));
                    assert(lookup(r, v) == lookup(to, v));
                }
            }
            lemma_same_lookups(merge(l, r), moved(merge(left, right), to, variables));
        }
    }
    if compatible(l, r) {
        assert forall|v: Seq<char>| #[trigger]
            left.dom().contains(v) && #[trigger] right.dom().contains(v) implies left[v]
            == right[v] by {
            if variables.contains(v) {
                assert(lookup(left, v) == lookup(l, v));
                assert(lookup(right, v) == lookup(r, v));
            } else {
                assert(from.dom().contains(v));
            }
        }
    }
    assert(merged(l, r) =~= merged(left, right).map_values(mover(to, variables)));
    if l == r {
        assert forall|v: Seq<char>| lookup(left, v) == #[trigger] lookup(right, v) by {
            if variables.contains(v) {
                assert(lookup(left, v) == lookup(l, v));
                assert(lookup(right, v) == lookup(r, v));
            } else if left.dom().contains(v) || right.dom().contains(v) {
                assert(from.dom().contains(v));
            }
        }
        lemma_same_lookups(left, right);
    }
    if shares_variable(l, r, to) {
        let v = choose|v: Seq<char>| #[trigger]
            l.dom().contains(v) && r.dom().contains(v) && !to.dom().contains(v);
        assert(variables.contains(v));
        assert(lookup(left, v) == lookup(l, v));
        assert(lookup(right, v) == lookup(r, v));
        assert(lookup(from, v) == lookup(to, v));
        assert(left.dom().contains(v) && right.dom().contains(v) && !from.dom().contains(v));
    }
    if shares_variable(left, right, from) {
        let v = choose|v: Seq<char>| #[trigger]
            left.dom().contains(v) && right.dom().contains(v) && !from.dom().contains(v);
        assert(variables.contains(v));
        assert(lookup(left, v) == lookup(l, v));
        assert(lookup(right, v) == lookup(r, v));
        assert(lookup(from, v) == lookup(to, v));
        assert(l.dom().contains(v) && r.dom().contains(v) && !to.dom().contains(v));
    }
}

/// Solutions with the same values are the same.
pub proof fn lemma_same_lookups(left: Solution, right: Solution)
    requires
        forall|v: Seq<char>| lookup(left, v) == #[trigger] lookup(right, v),
    ensures
        left == right,
{
    assert forall|v: Seq<char>| left.dom().contains(v) == right.dom().contains(v) by {
        assert(lookup(left, v) == lookup(right, v));
    }
    assert forall|v: Seq<char>| left.dom().contains(v) implies left[v] == right[v] by {
        assert(lookup(left, v) == lookup(right, v));
    }
    assert(left =~= right);
}

/// Moving a solution again, by way of one that it extends.
proof fn lemma_moved_twice(
    solution: Solution,
    middle: Solution,
    from: Solution,
    to: Solution,
    variables: Set<Seq<char>>,
)
    requires
        agree(from, to, variables),
        within(middle, from, variables),
        within(solution, middle, variables),
    ensures
        moved(solution, moved(middle, to, variables), variables) == moved(solution, to, variables),
{
    let m = moved(middle, to, variables);
    lemma_moved(middle, from, to, variables);
    lemma_moved(solution, middle, m, variables);
    assert(within(solution, from, variables));
    lemma_moved(solution, from, to, variables);
    let (a, b) = (moved(solution, m, variables), moved(solution, to, variables));
    assert forall|v: Seq<char>| lookup(a, v) == #[trigger] lookup(b, v) by {
        if variables.contains(v) {
            assert(lookup(solution, v) == lookup(a, v));
            assert(lookup(solution, v) == lookup(b, v));
        } else {
            assert(lookup(a, v) == lookup(m, v));
            assert(lookup(m, v) == lookup(to, v));
        }
    }
    lemma_same_lookups(a, b);
}

/// Joining a base with solutions over the variables in question.
proof fn lemma_joined_with_moved(
    from: Solution,
    to: Solution,
    others: Seq<Solution>,
    variables: Set<Seq<char>>,
)
    requires
        agree(from, to, variables),
        forall|i: int|
            0 <= i < others.len() ==> (#[trigger] others[i]).dom().subset_of(variables),
    ensures
        joined_with(to, others) == joined_with(from, others).map_values(mover(to, variables)),
{
    let f = |other: Solution| merged(from, other);
    let g = |other: Solution| merged(to, other);
    let stay = |other: Solution| other;
    assert(others.map_values(stay) =~= others);
    assert forall|i: int| 0 <= i < others.len() implies g(stay(#[trigger] others[i])) == f(
        others[i],
    ).map_values(mover(to, variables)) by {
        let other = others[i];
        assert(other.dom().subset_of(variables));
        assert forall|v: Seq<char>| other.dom().contains(v) implies lookup(from, v) == #[trigger] lookup(
            to,
            v,
        ) by {
            assert(variables.contains(v));
        }
        assert(compatible(from, other) == compatible(to, other)) by {
            if compatible(from, other) {
                assert forall|v: Seq<char>| #[trigger]
                    to.dom().contains(v) && #[trigger] other.dom().contains(v) implies to[v]
                    == other[v] by {
                    assert(lookup(from, v) == lookup(to, v));
                    assert(from.dom().contains(v));
                }
            }
            if compatible(to, other) {
                assert forall|v: Seq<char>| #[trigger]
                    from.dom().contains(v) && #[trigger] other.dom().contains(v) implies from[v]
                    == other[v] by {
                    assert(lookup(from, v) == lookup(to, v));
                    assert(to.dom().contains(v));
                }
            }
        }
        let (a, b) = (merge(to, other), moved(merge(from, other), to, variables));
        assert forall|v: Seq<char>| lookup(a, v) == #[trigger] lookup(b, v) by {
            if variables.contains(v) {
                assert(lookup(from, v) == lookup(to, v));
            }
        }
        lemma_same_lookups(a, b);
        assert(merged(to, other) =~= merged(from, other).map_values(mover(to, variables)));
    }
    lemma_gather_mapped(others, stay, mover(to, variables), f, g);
}

/// What solutions add to the input is the same after they are moved.
proof fn lemma_without_moved(
    solutions: Seq<Solution>,
    from: Solution,
    to: Solution,
    variables: Set<Seq<char>>,
    kept: Set<Seq<char>>,
)
    requires
        agree(from, to, variables),
        all_within(solutions, from, variables),
        kept.subset_of(variables),
    ensures
        without_all(solutions.map_values(mover(to, variables)), to.dom().difference(kept))
            == without_all(solutions, from.dom().difference(kept)),
{
    let (a, b) = (from.dom().difference(kept), to.dom().difference(kept));
    let f = |solution: Solution| seq![hide_variables(solution, a)];
    let g = |solution: Solution| seq![hide_variables(solution, b)];
    let stay = |solution: Solution| solution;
    assert forall|i: int| 0 <= i < solutions.len() implies g(
        mover(to, variables)(#[trigger] solutions[i]),
    ) == f(solutions[i]).map_values(stay) by {
        let s = solutions[i];
        assert(within(s, from, variables));
        lemma_moved(s, from, to, variables);
        let m = moved(s, to, variables);
        let (x, y) = (hide_variables(s, a), hide_variables(m, b));
        assert forall|v: Seq<char>| lookup(x, v) == #[trigger] lookup(y, v) by {
            if variables.contains(v) {
                assert(lookup(s, v) == lookup(m, v));
                assert(lookup(from, v) == lookup(to, v));
                assert(a.contains(v) == b.contains(v));
            } else {
                assert(lookup(m, v) == lookup(to, v));
                if s.dom().contains(v) {
                    assert(from.dom().contains(v));
                }
            }
        }
        lemma_same_lookups(x, y);
        assert(g(mover(to, variables)(s)) =~= f(s).map_values(stay));
    }
    lemma_gather_mapped(solutions, mover(to, variables), stay, f, g);
    assert(without_all(solutions, a).map_values(stay) =~= without_all(solutions, a));
}

/// A plan depends on its input only through the variables that it uses.
#[verifier::spinoff_prover]
#[verifier::rlimit(40)]
pub proof fn lemma_eval_depends(
    world: World,
    plan: Plan,
    from: Solution,
    to: Solution,
    variables: Set<Seq<char>>,
)
    requires
        regular(world),
        plan_variables(plan).subset_of(variables),
        agree(from, to, variables),
    ensures
        eval(world, plan, to) == eval(world, plan, from).map_values(mover(to, variables)),
    decreases plan,
{
    let m = mover(to, variables);
    match plan {
        Plan::QuadPattern { .. }
        | Plan::Path { .. }
        | Plan::Graph { .. }
        | Plan::Service { .. } => {
            let atoms = (world.atom)(plan);
            assert forall|i: int| 0 <= i < atoms.len() implies (#[trigger] atoms[i]).dom().subset_of(
                variables,
            ) by {
                assert(is_lookup(plan));
                assert((world.atom)(plan)[i].dom().subset_of(plan_variables(plan)));
            }
            lemma_joined_with_moved(from, to, atoms, variables);
        },
        Plan::Values { variables: columns, bindings } => {
            lemma_table_within(columns, bindings);
            let rows = table(columns, bindings);
            assert forall|i: int| 0 <= i < rows.len() implies (#[trigger] rows[i]).dom().subset_of(
                variables,
            ) by {
                assert(within(rows[i], Map::empty(), columns.to_set()));
            }
            lemma_joined_with_moved(from, to, rows, variables);
        },
        Plan::Join { left, right, .. } => {
            lemma_eval_depends(world, *left, from, to, variables);
            lemma_eval_depends(world, *right, from, to, variables);
            lemma_eval_within(world, *left, from);
            lemma_eval_within(world, *right, from);
            lemma_joined_bags_moved(
                eval(world, *left, from),
                eval(world, *right, from),
                from,
                to,
                variables,
            );
        },
        Plan::Lateral { left, right } => {
            lemma_eval_depends(world, *left, from, to, variables);
            lemma_eval_within(world, *left, from);
            let l = eval(world, *left, from);
            let f = evaluator(world, *right);
            assert forall|i: int| 0 <= i < l.len() implies f(m(#[trigger] l[i])) == f(
                l[i],
            ).map_values(m) by {
                let s = l[i];
                assert(within(s, from, plan_variables(*left)));
                assert(within(s, from, variables));
                lemma_moved(s, from, to, variables);
                lemma_eval_depends(world, *right, s, m(s), variables);
                lemma_eval_within(world, *right, s);
                let r = eval(world, *right, s);
                assert forall|k: int| 0 <= k < r.len() implies r.map_values(
                    mover(m(s), variables),
                )[k] == #[trigger] r.map_values(m)[k] by {
                    assert(within(r[k], s, plan_variables(*right)));
                    assert(within(r[k], s, variables));
                    lemma_moved_twice(r[k], s, from, to, variables);
                }
                assert(r.map_values(mover(m(s), variables)) =~= r.map_values(m));
            }
            lemma_gather_mapped(l, m, m, f, f);
        },
        Plan::LeftJoin { left, right, expression, .. } => {
            lemma_eval_depends(world, *left, from, to, variables);
            lemma_eval_depends(world, *right, from, to, variables);
            lemma_eval_within(world, *left, from);
            lemma_eval_within(world, *right, from);
            let l = eval(world, *left, from);
            let r = eval(world, *right, from);
            let ok = condition(world, expression);
            let f = matcher(world, expression, r);
            let g = matcher(world, expression, r.map_values(m));
            assert forall|i: int| 0 <= i < l.len() implies g(m(#[trigger] l[i])) == f(
                l[i],
            ).map_values(m) by {
                let s = l[i];
                assert(within(s, from, plan_variables(*left)));
                assert(within(s, from, variables));
                assert(all_within(r, from, variables)) by {
                    assert forall|k: int| 0 <= k < r.len() implies within(
                        #[trigger] r[k],
                        from,
                        variables,
                    ) by {
                        assert(within(r[k], from, plan_variables(*right)));
                    }
                }
                lemma_joined_one_moved(s, r, from, to, variables);
                let joined = joined_with(s, r);
                assert forall|k: int| 0 <= k < joined.len() implies ok(m(#[trigger] joined[k]))
                    == ok(joined[k]) by {
                    lemma_joined_one_within(s, r, from, variables);
                    assert(within(joined[k], from, variables));
                    lemma_moved(joined[k], from, to, variables);
                    assert(agree(joined[k], m(joined[k]), expr_variables(expression)));
                    lemma_value_depends(world, expression, joined[k], m(joined[k]));
                }
                lemma_keep_mapped(joined, m, ok, ok);
                assert(g(m(s)) =~= f(s).map_values(m));
            }
            lemma_gather_mapped(l, m, m, f, g);
        },
        Plan::Minus { left, right, .. } => {
            lemma_eval_depends(world, *left, from, to, variables);
            lemma_eval_depends(world, *right, from, to, variables);
            lemma_eval_within(world, *left, from);
            lemma_eval_within(world, *right, from);
            let l = eval(world, *left, from);
            let r = eval(world, *right, from);
            let before = remains(r, from);
            let after = remains(r.map_values(m), to);
            assert forall|i: int| 0 <= i < l.len() implies after(m(#[trigger] l[i])) == before(
                l[i],
            ) by {
                let s = l[i];
                assert(within(s, from, plan_variables(*left)));
                assert forall|k: int| 0 <= k < r.len() implies (compatible(
                    m(s),
                    #[trigger] r.map_values(m)[k],
                ) && shares_variable(m(s), r.map_values(m)[k], to)) == (compatible(s, r[k])
                    && shares_variable(s, r[k], from)) by {
                    assert(within(r[k], from, plan_variables(*right)));
                    lemma_moved_pair(s, r[k], from, to, variables);
                }
                if excluded(s, r, from) {
                    let k = choose|k: int|
                        0 <= k < r.len() && compatible(s, #[trigger] r[k]) && shares_variable(
                            s,
                            r[k],
                            from,
                        );
                    assert(compatible(m(s), r.map_values(m)[k]));
                }
                if excluded(m(s), r.map_values(m), to) {
                    let k = choose|k: int|
                        0 <= k < r.map_values(m).len() && compatible(
                            m(s),
                            #[trigger] r.map_values(m)[k],
                        ) && shares_variable(m(s), r.map_values(m)[k], to);
                    assert(compatible(s, r[k]));
                }
            }
            lemma_keep_mapped(l, m, before, after);
        },
        Plan::Filter { inner, expression } => {
            lemma_eval_depends(world, *inner, from, to, variables);
            lemma_eval_within(world, *inner, from);
            let l = eval(world, *inner, from);
            let ok = condition(world, expression);
            assert forall|i: int| 0 <= i < l.len() implies ok(m(#[trigger] l[i])) == ok(l[i]) by {
                assert(within(l[i], from, plan_variables(*inner)));
                assert(within(l[i], from, variables));
                lemma_moved(l[i], from, to, variables);
                assert(agree(l[i], m(l[i]), expr_variables(expression)));
                lemma_value_depends(world, expression, l[i], m(l[i]));
            }
            lemma_keep_mapped(l, m, ok, ok);
        },
        Plan::Extend { inner, variable, expression } => {
            lemma_eval_depends(world, *inner, from, to, variables);
            lemma_eval_within(world, *inner, from);
            let l = eval(world, *inner, from);
            let f = extender(world, variable, expression);
            assert forall|i: int| 0 <= i < l.len() implies f(m(#[trigger] l[i])) == f(
                l[i],
            ).map_values(m) by {
                let s = l[i];
                assert(within(s, from, plan_variables(*inner)));
                assert(within(s, from, variables));
                lemma_moved(s, from, to, variables);
                assert(agree(s, m(s), expr_variables(expression)));
                lemma_value_depends(world, expression, s, m(s));
                match value(world, expression, s) {
                    Some(term) => {
                        let cell: Solution = Map::empty().insert(variable, term);
                        let both = merge(from, cell);
                        lemma_cell_moved(s, cell, variable, from, to, variables);
                    },
                    None => {
                        assert(f(m(s)) =~= f(s).map_values(m));
                    },
                }
            }
            lemma_gather_mapped(l, m, m, f, f);
        },
        Plan::Union { inner } => {
            lemma_eval_all_depends(world, inner, from, to, variables);
        },
        Plan::OrderBy { inner, .. } => {
            lemma_eval_depends(world, *inner, from, to, variables);
        },
        Plan::Distinct { inner } | Plan::Reduced { inner } => {
            lemma_eval_depends(world, *inner, from, to, variables);
            lemma_eval_within(world, *inner, from);
            let l = eval(world, *inner, from);
            assert forall|i: int, j: int|
                0 <= i < l.len() && 0 <= j < l.len() && m(#[trigger] l[i]) == m(
                    #[trigger] l[j],
                ) implies l[i] == l[j] by {
                assert(within(l[i], from, plan_variables(*inner)));
                assert(within(l[j], from, plan_variables(*inner)));
                lemma_moved_pair(l[i], l[j], from, to, variables);
            }
            lemma_once_mapped(l, m);
        },
        Plan::Slice { inner, start, length } => {
            lemma_eval_depends(world, *inner, from, to, variables);
            lemma_eval_within(world, *inner, from);
            let l = eval(world, *inner, from);
            let shown = plan_variables(*inner);
            assert(all_within(l, from, variables)) by {
                assert forall|i: int| 0 <= i < l.len() implies within(
                    #[trigger] l[i],
                    from,
                    variables,
                ) by {
                    assert(within(l[i], from, shown));
                }
            }
            lemma_without_moved(l, from, to, variables, Set::empty());
            assert(from.dom().difference(Set::empty()) =~= from.dom());
            assert(to.dom().difference(Set::empty()) =~= to.dom());
            let bag = added(l, from);
            let kept = (world.slice)(start, length, bag.to_multiset());
            lemma_added_within(l, from, shown);
            bag.to_multiset_ensures();
            assert forall|i: int| 0 <= i < kept.len() implies (#[trigger] kept[i]).dom().subset_of(
                variables,
            ) by {
                assert(bag.to_multiset().count((world.slice)(start, length, bag.to_multiset())[i])
                    > 0);
                assert(bag.contains(kept[i]));
            }
            lemma_joined_with_moved(from, to, kept, variables);
        },
        Plan::Project { inner, variables: columns } => {
            let local = hidden(*inner, columns);
            let wide = variables.union(plan_variables(*inner));
            let (h, k) = (hide_variables(from, local), hide_variables(to, local));
            lemma_hidden_agree(from, to, *inner, columns, variables);
            lemma_eval_depends(world, *inner, h, k, wide);
            lemma_eval_within(world, *inner, h);
            let l = eval(world, *inner, h);
            let f = shown_with(from, local);
            let g = shown_with(to, local);
            assert forall|i: int| 0 <= i < l.len() implies g(mover(k, wide)(#[trigger] l[i])) == f(
                l[i],
            ).map_values(m) by {
                assert(within(l[i], h, plan_variables(*inner)));
                lemma_shown_moved(l[i], from, to, *inner, columns, variables);
            }
            lemma_gather_mapped(l, mover(k, wide), m, f, g);
        },
        Plan::Group { inner, variables: columns, aggregates } => {
            let local = hidden(*inner, columns);
            let wide = variables.union(plan_variables(*inner));
            let (h, k) = (hide_variables(from, local), hide_variables(to, local));
            lemma_hidden_agree(from, to, *inner, columns, variables);
            lemma_eval_depends(world, *inner, h, k, wide);
            lemma_eval_within(world, *inner, h);
            let l = eval(world, *inner, h);
            let shown = plan_variables(*inner);
            assert(all_within(l, h, wide)) by {
                assert forall|i: int| 0 <= i < l.len() implies within(#[trigger] l[i], h, wide) by {
                    assert(within(l[i], h, shown));
                }
            }
            lemma_without_moved(l, h, k, wide, columns.to_set());
            let bag = grouped(l, h, columns).to_multiset();
            let groups = (world.group)(columns, aggregates, bag);
            assert forall|i: int| 0 <= i < groups.len() implies (
            #[trigger] groups[i]).dom().subset_of(variables) by {
                assert(is_group_of(
                    (world.group)(columns, aggregates, bag)[i],
                    columns,
                    aggregates,
                    bag,
                ));
            }
            lemma_joined_with_moved(from, to, groups, variables);
        },
    }
}

proof fn lemma_eval_all_depends(
    world: World,
    plans: Seq<Plan>,
    from: Solution,
    to: Solution,
    variables: Set<Seq<char>>,
)
    requires
        regular(world),
        plans_variables(plans).subset_of(variables),
        agree(from, to, variables),
    ensures
        eval_all(world, plans, to) == eval_all(world, plans, from).map_values(mover(to, variables)),
    decreases plans,
{
    if plans.len() > 0 {
        let shorter = plans.drop_last();
        let last = plans[plans.len() - 1];
        assert forall|v: Seq<char>| #[trigger] plans_variables(shorter).contains(v) implies
            variables.contains(v) by {
            let i = choose|i: int|
                0 <= i < shorter.len() && plan_variables(#[trigger] shorter[i]).contains(v);
            assert(plan_variables(plans[i]).contains(v));
            assert(plans_variables(plans).contains(v));
        }
        assert forall|v: Seq<char>| #[trigger] plan_variables(last).contains(v) implies
            variables.contains(v) by {
            assert(plan_variables(plans[plans.len() - 1]).contains(v));
            assert(plans_variables(plans).contains(v));
        }
        lemma_eval_all_depends(world, shorter, from, to, variables);
        lemma_eval_depends(world, last, from, to, variables);
    }
    assert(eval_all(world, plans, to) =~= eval_all(world, plans, from).map_values(
        mover(to, variables),
    ));
}

/// An expression depends on a solution only through the variables that it uses.
#[verifier::spinoff_prover]
#[verifier::rlimit(40)]
pub proof fn lemma_value_depends(
    world: World,
    expression: Expr,
    first: Solution,
    second: Solution,
)
    requires
        regular(world),
        agree(first, second, expr_variables(expression)),
    ensures
        value(world, expression, first) == value(world, expression, second),
        holds(world, expression, first) == holds(world, expression, second),
    decreases expression,
{
    match expression {
        Expr::Or(inner)
        | Expr::And(inner)
        | Expr::Coalesce(inner)
        | Expr::FunctionCall(_, inner) => {
            assert forall|i: int| 0 <= i < inner.len() implies value(
                world,
                #[trigger] inner[i],
                first,
            ) == value(world, inner[i], second) by {
                assert forall|v: Seq<char>| #[trigger]
                    expr_variables(inner[i]).contains(v) implies lookup(first, v) == lookup(
                    second,
                    v,
                ) by {
                    assert(exprs_variables(inner).contains(v));
                }
                lemma_value_depends(world, inner[i], first, second);
            }
            assert(truths(world, inner, first) =~= truths(world, inner, second));
            assert(values(world, inner, first) =~= values(world, inner, second));
        },
        Expr::Equal(left, right)
        | Expr::SameTerm(left, right)
        | Expr::Greater(left, right)
        | Expr::GreaterOrEqual(left, right)
        | Expr::Less(left, right)
        | Expr::LessOrEqual(left, right)
        | Expr::Add(left, right)
        | Expr::Subtract(left, right)
        | Expr::Multiply(left, right)
        | Expr::Divide(left, right) => {
            lemma_agree_less(first, second, expr_variables(expression), expr_variables(*left));
            lemma_agree_less(first, second, expr_variables(expression), expr_variables(*right));
            lemma_value_depends(world, *left, first, second);
            lemma_value_depends(world, *right, first, second);
        },
        Expr::UnaryPlus(inner) | Expr::UnaryMinus(inner) | Expr::Not(inner) => {
            lemma_agree_less(first, second, expr_variables(expression), expr_variables(*inner));
            lemma_value_depends(world, *inner, first, second);
        },
        Expr::If(condition, then_case, else_case) => {
            let used = expr_variables(expression);
            lemma_agree_less(first, second, used, expr_variables(*condition));
            lemma_agree_less(first, second, used, expr_variables(*then_case));
            lemma_agree_less(first, second, used, expr_variables(*else_case));
            lemma_value_depends(world, *condition, first, second);
            lemma_value_depends(world, *then_case, first, second);
            lemma_value_depends(world, *else_case, first, second);
        },
        Expr::Exists(inner) => {
            lemma_eval_depends(world, *inner, first, second, plan_variables(*inner));
        },
        Expr::Bound(variable) | Expr::Variable(variable) => {
            assert(expr_variables(expression).contains(variable));
            assert(lookup(first, variable) == lookup(second, variable));
        },
        _ => {},
    }
}

/// Solutions that agree on some variables agree on fewer of them.
pub proof fn lemma_agree_less(
    first: Solution,
    second: Solution,
    all: Set<Seq<char>>,
    some: Set<Seq<char>>,
)
    requires
        agree(first, second, all),
        some.subset_of(all),
    ensures
        agree(first, second, some),
{
}

proof fn lemma_joined_one_within(
    solution: Solution,
    others: Seq<Solution>,
    base: Solution,
    variables: Set<Seq<char>>,
)
    requires
        within(solution, base, variables),
        all_within(others, base, variables),
    ensures
        all_within(joined_with(solution, others), base, variables),
{
    let all = joined_with(solution, others);
    assert forall|i: int| 0 <= i < all.len() implies within(#[trigger] all[i], base, variables) by {
        lemma_contains_index(all, i);
        lemma_joined_with_contains(solution, others, all[i]);
        let k = choose|k: int|
            0 <= k < others.len() && compatible(solution, #[trigger] others[k]) && all[i] == merge(
                solution,
                others[k],
            );
        assert(within(others[k], base, variables));
        lemma_merge_extends(solution, others[k]);
    }
}

proof fn lemma_joined_one_moved(
    solution: Solution,
    others: Seq<Solution>,
    from: Solution,
    to: Solution,
    variables: Set<Seq<char>>,
)
    requires
        agree(from, to, variables),
        within(solution, from, variables),
        all_within(others, from, variables),
    ensures
        joined_with(moved(solution, to, variables), others.map_values(mover(to, variables)))
            == joined_with(solution, others).map_values(mover(to, variables)),
{
    let m = mover(to, variables);
    let f = |other: Solution| merged(solution, other);
    let g = |other: Solution| merged(m(solution), other);
    assert forall|i: int| 0 <= i < others.len() implies g(m(#[trigger] others[i])) == f(
        others[i],
    ).map_values(m) by {
        assert(within(others[i], from, variables));
        lemma_moved_pair(solution, others[i], from, to, variables);
    }
    lemma_gather_mapped(others, m, m, f, g);
    lemma_gather_equal(
        others.map_values(m),
        g,
        |other: Solution| merged(moved(solution, to, variables), other),
    );
}

proof fn lemma_joined_bags_moved(
    left: Seq<Solution>,
    right: Seq<Solution>,
    from: Solution,
    to: Solution,
    variables: Set<Seq<char>>,
)
    requires
        agree(from, to, variables),
        forall|i: int| 0 <= i < left.len() ==> within(#[trigger] left[i], from, variables),
        forall|i: int| 0 <= i < right.len() ==> within(#[trigger] right[i], from, variables),
    ensures
        joined_bags(
            left.map_values(mover(to, variables)),
            right.map_values(mover(to, variables)),
        ) == joined_bags(left, right).map_values(mover(to, variables)),
{
    let m = mover(to, variables);
    let f = |solution: Solution| joined_with(solution, right);
    let g = |solution: Solution| joined_with(solution, right.map_values(m));
    assert forall|i: int| 0 <= i < left.len() implies g(m(#[trigger] left[i])) == f(
        left[i],
    ).map_values(m) by {
        lemma_joined_one_moved(left[i], right, from, to, variables);
    }
    lemma_gather_mapped(left, m, m, f, g);
}

/// Extending a moved solution by one value.
proof fn lemma_cell_moved(
    solution: Solution,
    cell: Solution,
    variable: Seq<char>,
    from: Solution,
    to: Solution,
    variables: Set<Seq<char>>,
)
    requires
        agree(from, to, variables),
        within(solution, from, variables),
        variables.contains(variable),
        cell.dom() == set![variable],
    ensures
        merged(moved(solution, to, variables), cell) == merged(solution, cell).map_values(
            mover(to, variables),
        ),
{
    let m = moved(solution, to, variables);
    lemma_moved(solution, from, to, variables);
    assert(lookup(solution, variable) == lookup(m, variable));
    assert(cell.dom().contains(variable));
    assert forall|v: Seq<char>| #[trigger] cell.dom().contains(v) implies v == variable by {
        assert(set![variable].contains(v));
    }
    assert(compatible(solution, cell) == compatible(m, cell)) by {
        if compatible(solution, cell) {
            assert forall|v: Seq<char>| #[trigger]
                m.dom().contains(v) && #[trigger] cell.dom().contains(v) implies m[v]
                == cell[v] by {
                assert(solution.dom().contains(variable));
            }
        }
        if compatible(m, cell) {
            assert forall|v: Seq<char>| #[trigger]
                solution.dom().contains(v) && #[trigger] cell.dom().contains(v) implies solution[v]
                == cell[v] by {
                assert(m.dom().contains(variable));
            }
        }
    }
    let (a, b) = (merge(m, cell), moved(merge(solution, cell), to, variables));
    assert forall|v: Seq<char>| lookup(a, v) == #[trigger] lookup(b, v) by {
        if variables.contains(v) {
            assert(lookup(solution, v) == lookup(m, v));
        } else {
            assert(lookup(m, v) == lookup(to, v));
            assert(!cell.dom().contains(v));
        }
    }
    lemma_same_lookups(a, b);
    assert(merged(m, cell) =~= merged(solution, cell).map_values(mover(to, variables)));
}

/// Inputs that agree still agree when local variables are hidden.
proof fn lemma_hidden_agree(
    from: Solution,
    to: Solution,
    inner: Plan,
    columns: Seq<Seq<char>>,
    variables: Set<Seq<char>>,
)
    requires
        agree(from, to, variables),
        columns.to_set().subset_of(variables),
    ensures
        agree(
            hide_variables(from, hidden(inner, columns)),
            hide_variables(to, hidden(inner, columns)),
            variables.union(plan_variables(inner)),
        ),
{
    let local = hidden(inner, columns);
    assert forall|v: Seq<char>| #[trigger]
        variables.union(plan_variables(inner)).contains(v) implies lookup(
        hide_variables(from, local),
        v,
    ) == lookup(hide_variables(to, local), v) by {
        if !local.contains(v) {
            assert(variables.contains(v)) by {
                if !variables.contains(v) {
                    assert(plan_variables(inner).contains(v));
                    assert(columns.to_set().contains(v));
                }
            }
            assert(lookup(from, v) == lookup(to, v));
        }
    }
}

/// What a projection shows of a moved solution.
proof fn lemma_shown_moved(
    solution: Solution,
    from: Solution,
    to: Solution,
    inner: Plan,
    columns: Seq<Seq<char>>,
    variables: Set<Seq<char>>,
)
    requires
        agree(from, to, variables),
        columns.to_set().subset_of(variables),
        within(
            solution,
            hide_variables(from, hidden(inner, columns)),
            plan_variables(inner),
        ),
    ensures
        ({
            let local = hidden(inner, columns);
            let wide = variables.union(plan_variables(inner));
            shown_with(to, local)(mover(hide_variables(to, local), wide)(solution)) == shown_with(
                from,
                local,
            )(solution).map_values(mover(to, variables))
        }),
{
    let local = hidden(inner, columns);
    let wide = variables.union(plan_variables(inner));
    let (h, k) = (hide_variables(from, local), hide_variables(to, local));
    lemma_hidden_agree(from, to, inner, columns, variables);
    assert(within(solution, h, wide));
    lemma_moved(solution, h, k, wide);
    let m = moved(solution, k, wide);
    let (a, b) = (hide_variables(solution, local), hide_variables(m, local));
    assert(compatible(from, a)) by {
        assert forall|v: Seq<char>| #[trigger]
            from.dom().contains(v) && #[trigger] a.dom().contains(v) implies from[v] == a[v] by {
            assert(h.dom().contains(v));
        }
    }
    assert(compatible(to, b)) by {
        assert forall|v: Seq<char>| #[trigger]
            to.dom().contains(v) && #[trigger] b.dom().contains(v) implies to[v] == b[v] by {
            assert(k.dom().contains(v));
        }
    }
    let (x, y) = (merge(to, b), moved(merge(from, a), to, variables));
    assert forall|v: Seq<char>| lookup(x, v) == #[trigger] lookup(y, v) by {
        if variables.contains(v) {
            assert(wide.contains(v));
            assert(lookup(solution, v) == lookup(m, v));
            assert(lookup(from, v) == lookup(to, v));
        } else {
            if !local.contains(v) && m.dom().contains(v) {
                assert(lookup(m, v) == lookup(k, v)) by {
                    if wide.contains(v) {
                        assert(plan_variables(inner).contains(v));
                        assert(columns.to_set().contains(v));
                    }
                }
            }
        }
    }
    lemma_same_lookups(x, y);
    assert(merged(to, b) =~= merged(from, a).map_values(mover(to, variables)));
}

} // verus!
