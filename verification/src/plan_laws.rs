//! The simplifications that building a plan makes keep its solutions.

use vstd::multiset::Multiset;
use vstd::prelude::*;

use crate::algebra::{AggregateExpr, Expr, OrderExpr, Plan, Row};
use crate::bags::{
    gather, keep, lemma_gather_concat, lemma_gather_equal, lemma_gather_nothing, lemma_gather_order,
    lemma_gather_single, lemma_keep_all, lemma_keep_equal, lemma_keep_none, lemma_keep_twice, once,
    same,
};
use crate::builders::{
    all_branches, and_all, binds_nothing, branches, distinct, empty, exists_plan, extend, filter,
    group, is_empty, is_empty_singleton, join, known_truth, lateral, left_join, minus, order_by,
    reduced, slice, truth, union_all, values, width, without_singleton_and,
};
use crate::eval_basics::{lemma_eval_within, within};
use crate::expr_laws::{lemma_and_all_holds, lemma_known, lemma_without_singleton};
use crate::semantics::{
    added, condition, eval, eval_all, evaluator, excluded, extender, grouped, hidden, holds,
    matcher, or_itself, regular, remains, row_solutions, table, value, World,
};
use crate::solutions::{
    all_extend, compatible, extends, hide_variables, joined_bags, joined_with, lemma_extends_merge,
    lemma_join_nothing, lemma_join_unit, merge, merged, Solution, Term,
};
use crate::variables::plan_variables;

verus! {

/// A table without rows has no solutions.
pub proof fn lemma_empty(world: World, plan: Plan, input: Solution)
    requires
        is_empty(plan),
    ensures
        eval(world, plan, input) == Seq::<Solution>::empty(),
{
    if let Plan::Values { variables, bindings } = plan {
        assert(table(variables, bindings) =~= seq![]);
        assert(joined_with(input, table(variables, bindings)) =~= seq![]);
    }
}

/// A row that binds nothing joins with everything.
proof fn lemma_row_nothing(variables: Seq<Seq<char>>, row: Row, count: int)
    requires
        binds_nothing(row),
    ensures
        row_solutions(variables, row, count) == seq![Map::<
            Seq<char>,
            Term,
        >::empty()],
    decreases count,
{
    if count > 0 {
        lemma_row_nothing(variables, row, count - 1);
        if count <= row.len() {
            assert(row[count - 1] is None);
        }
    }
}

/// A table with one row, which binds nothing, gives back the input.
pub proof fn lemma_singleton(world: World, plan: Plan, input: Solution)
    requires
        is_empty_singleton(plan),
    ensures
        eval(world, plan, input) == seq![input],
{
    if let Plan::Values { variables, bindings } = plan {
        let n = variables.len() as int;
        let nothing: Solution = Map::empty();
        lemma_row_nothing(variables, bindings[0], n);
        let f = |row: Row| row_solutions(variables, row, n);
        assert(bindings =~= seq![bindings[0]]);
        lemma_gather_single(bindings[0], f);
        assert(table(variables, bindings) == seq![nothing]);
        let g = |other: Solution| merged(input, other);
        lemma_gather_single(nothing, g);
        assert(merge(input, nothing) =~= input);
        assert(merged(input, nothing) =~= seq![input]);
    }
}

/// The solutions of a plan extend its input.
pub proof fn lemma_eval_extends(world: World, plan: Plan, input: Solution)
    requires
        regular(world),
    ensures
        all_extend(eval(world, plan, input), input),
{
    lemma_eval_within(world, plan, input);
    let all = eval(world, plan, input);
    assert forall|i: int| 0 <= i < all.len() implies extends(#[trigger] all[i], input) by {
        assert(within(all[i], input, plan_variables(plan)));
    }
}

pub proof fn lemma_join(
    world: World,
    left: Plan,
    right: Plan,
    keys: Seq<Seq<char>>,
    input: Solution,
)
    requires
        regular(world),
    ensures
        same(
            eval(world, join(left, right, keys), input),
            joined_bags(eval(world, left, input), eval(world, right, input)),
        ),
{
    let (l, r) = (eval(world, left, input), eval(world, right, input));
    lemma_eval_extends(world, left, input);
    lemma_eval_extends(world, right, input);
    if is_empty(left) || is_empty(right) {
        lemma_empty(world, empty(), input);
        if is_empty(left) {
            lemma_empty(world, left, input);
            lemma_join_nothing(r);
        } else {
            lemma_empty(world, right, input);
            lemma_join_nothing(l);
        }
    } else if is_empty_singleton(left) {
        lemma_singleton(world, left, input);
        lemma_join_unit(input, r);
    } else if is_empty_singleton(right) {
        lemma_singleton(world, right, input);
        lemma_join_unit(input, l);
    }
}

/// Gathering the items themselves.
pub proof fn lemma_gather_items<A>(items: Seq<A>, f: spec_fn(A) -> Seq<A>)
    requires
        forall|i: int| 0 <= i < items.len() ==> f(#[trigger] items[i]) == seq![items[i]],
    ensures
        gather(items, f) == items,
    decreases items.len(),
{
    if items.len() > 0 {
        let shorter = items.drop_last();
        assert forall|i: int| 0 <= i < shorter.len() implies f(#[trigger] shorter[i])
            == seq![shorter[i]] by {
            assert(f(items[i]) == seq![items[i]]);
        }
        lemma_gather_items(shorter, f);
        assert(f(items[items.len() - 1]) == seq![items[items.len() - 1]]);
    }
    assert(gather(items, f) =~= items);
}

pub proof fn lemma_lateral(world: World, left: Plan, right: Plan, input: Solution)
    ensures
        eval(world, lateral(left, right), input) == gather(
            eval(world, left, input),
            evaluator(world, right),
        ),
{
    let l = eval(world, left, input);
    let f = evaluator(world, right);
    if is_empty(left) || is_empty(right) {
        lemma_empty(world, empty(), input);
        if is_empty(left) {
            lemma_empty(world, left, input);
        } else {
            let nothing = |s: Solution| Seq::<Solution>::empty();
            assert forall|i: int| 0 <= i < l.len() implies f(#[trigger] l[i]) == nothing(l[i]) by {
                lemma_empty(world, right, l[i]);
            }
            lemma_gather_equal(l, f, nothing);
            lemma_gather_nothing::<Solution, Solution>(l);
        }
    } else if is_empty_singleton(left) {
        lemma_singleton(world, left, input);
        lemma_gather_single(input, f);
    } else if is_empty_singleton(right) {
        assert forall|i: int| 0 <= i < l.len() implies f(#[trigger] l[i]) == seq![l[i]] by {
            lemma_singleton(world, right, l[i]);
        }
        lemma_gather_items(l, f);
    }
}

/// A constant condition is the same everywhere.
pub proof fn lemma_known_condition(world: World, expression: Expr, b: bool, s: Solution)
    requires
        known_truth(expression) == Some(b),
    ensures
        condition(world, expression)(s) == b,
{
    lemma_known(world, expression, s);
}

/// Conditions that agree on the solutions of a bag keep the same.
pub proof fn lemma_same_condition(
    world: World,
    solutions: Seq<Solution>,
    first: Expr,
    second: Expr,
)
    requires
        forall|i: int|
            0 <= i < solutions.len() ==> holds(world, first, #[trigger] solutions[i]) == holds(
                world,
                second,
                solutions[i],
            ),
    ensures
        keep(solutions, condition(world, first)) == keep(solutions, condition(world, second)),
{
    let (a, b) = (condition(world, first), condition(world, second));
    assert forall|i: int| 0 <= i < solutions.len() implies a(#[trigger] solutions[i]) == b(
        solutions[i],
    ) by {
        assert(holds(world, first, solutions[i]) == holds(world, second, solutions[i]));
    }
    lemma_keep_equal(solutions, a, b);
}

/// Where nothing can match, a solution stands for itself.
proof fn lemma_unmatched(
    world: World,
    right: Plan,
    expression: Expr,
    s: Solution,
    input: Solution,
)
    requires
        extends(s, input),
        is_empty(right) || is_empty_singleton(right) || known_truth(expression) == Some(false),
    ensures
        matcher(world, expression, eval(world, right, input))(s) == seq![s],
{
    let r = eval(world, right, input);
    let ok = condition(world, expression);
    let joined = joined_with(s, r);
    let matches = keep(joined, ok);
    if is_empty(right) {
        lemma_empty(world, right, input);
        assert(joined =~= seq![]);
        assert(matches =~= seq![]);
    } else if is_empty_singleton(right) {
        lemma_singleton(world, right, input);
        lemma_extends_merge(s, input);
        lemma_gather_single(input, |other: Solution| merged(s, other));
        assert(joined =~= seq![s]);
        let one = |item: Solution|
            if ok(item) {
                seq![item]
            } else {
                seq![]
            };
        lemma_gather_single(s, one);
        assert(matches == one(s));
    } else {
        assert forall|i: int| 0 <= i < joined.len() implies !ok(#[trigger] joined[i]) by {
            lemma_known_condition(world, expression, false, joined[i]);
        }
        lemma_keep_none(joined, ok);
    }
    assert(or_itself(s, matches) == seq![s]);
}

pub proof fn lemma_left_join(
    world: World,
    left: Plan,
    right: Plan,
    expression: Expr,
    keys: Seq<Seq<char>>,
    input: Solution,
)
    requires
        regular(world),
    ensures
        eval(world, left_join(left, right, expression, keys), input) == gather(
            eval(world, left, input),
            matcher(world, expression, eval(world, right, input)),
        ),
{
    let (l, r) = (eval(world, left, input), eval(world, right, input));
    let f = matcher(world, expression, r);
    lemma_eval_extends(world, left, input);
    let known = known_truth(expression);
    if is_empty(left) {
        lemma_empty(world, left, input);
    } else if is_empty(right) || is_empty_singleton(right) || known == Some(false) {
        assert forall|i: int| 0 <= i < l.len() implies f(#[trigger] l[i]) == seq![l[i]] by {
            assert(extends(l[i], input));
            lemma_unmatched(world, right, expression, l[i], input);
        }
        lemma_gather_items(l, f);
    } else if known == Some(true) {
        lemma_matcher_same(world, expression, truth(true), l, r);
    }
}

/// Matching under a condition that is always true.
proof fn lemma_matcher_same(
    world: World,
    first: Expr,
    second: Expr,
    left: Seq<Solution>,
    right: Seq<Solution>,
)
    requires
        known_truth(first) == Some(true),
        second == truth(true),
    ensures
        gather(left, matcher(world, first, right)) == gather(left, matcher(world, second, right)),
{
    let (f, g) = (matcher(world, first, right), matcher(world, second, right));
    assert forall|i: int| 0 <= i < left.len() implies f(#[trigger] left[i]) == g(left[i]) by {
        let joined = joined_with(left[i], right);
        assert forall|k: int| 0 <= k < joined.len() implies holds(
            world,
            first,
            #[trigger] joined[k],
        ) == holds(world, second, joined[k]) by {
            lemma_known(world, first, joined[k]);
            lemma_known(world, second, joined[k]);
        }
        lemma_same_condition(world, joined, first, second);
    }
    lemma_gather_equal(left, f, g);
}

pub proof fn lemma_minus(
    world: World,
    left: Plan,
    right: Plan,
    keys: Seq<Seq<char>>,
    input: Solution,
)
    ensures
        eval(world, minus(left, right, keys), input) == keep(
            eval(world, left, input),
            remains(eval(world, right, input), input),
        ),
{
    let (l, r) = (eval(world, left, input), eval(world, right, input));
    if is_empty(left) {
        lemma_empty(world, left, input);
        lemma_empty(world, empty(), input);
    } else if is_empty(right) {
        lemma_empty(world, right, input);
        assert forall|i: int| 0 <= i < l.len() implies remains(r, input)(#[trigger] l[i]) by {
            assert(!excluded(l[i], r, input));
        }
        lemma_keep_all(l, remains(r, input));
    }
}

/// Evaluating two lists of plans.
pub proof fn lemma_eval_concat(world: World, a: Seq<Plan>, b: Seq<Plan>, input: Solution)
    ensures
        eval_all(world, a + b, input) == eval_all(world, a, input) + eval_all(world, b, input),
    decreases b.len(),
{
    if b.len() == 0 {
        assert(a + b =~= a);
        assert(eval_all(world, a, input) + eval_all(world, b, input) =~= eval_all(
            world,
            a,
            input,
        ));
    } else {
        assert((a + b).drop_last() =~= a + b.drop_last());
        lemma_eval_concat(world, a, b.drop_last(), input);
        assert((a + b)[(a + b).len() - 1] == b[b.len() - 1]);
        assert(eval_all(world, a + b, input) =~= eval_all(world, a, input) + eval_all(
            world,
            b,
            input,
        ));
    }
}

pub proof fn lemma_eval_one(world: World, plan: Plan, input: Solution)
    ensures
        eval_all(world, seq![plan], input) == eval(world, plan, input),
{
    assert(seq![plan].drop_last() =~= seq![]);
    assert(eval_all(world, Seq::<Plan>::empty(), input) =~= seq![]);
    assert(eval_all(world, seq![plan], input) =~= eval(world, plan, input));
}

proof fn lemma_all_branches(world: World, plans: Seq<Plan>, input: Solution)
    ensures
        eval_all(world, all_branches(plans), input) == eval_all(world, plans, input),
    decreases plans.len(),
{
    if plans.len() > 0 {
        let last = plans.last();
        lemma_all_branches(world, plans.drop_last(), input);
        lemma_eval_concat(world, all_branches(plans.drop_last()), branches(last), input);
        if is_empty(last) {
            lemma_empty(world, last, input);
        } else {
            match last {
                Plan::Union { inner } => {},
                _ => {
                    lemma_eval_one(world, last, input);
                },
            }
        }
        assert(eval_all(world, branches(last), input) =~= eval(world, last, input));
    }
}

pub proof fn lemma_union_all(world: World, plans: Seq<Plan>, input: Solution)
    ensures
        eval(world, union_all(plans), input) == eval_all(world, plans, input),
{
    lemma_all_branches(world, plans, input);
    if all_branches(plans).len() == 0 {
        lemma_empty(world, empty(), input);
        assert(eval_all(world, all_branches(plans), input) =~= seq![]);
    }
}

/// A filter on a filter.
proof fn lemma_filter_twice(
    world: World,
    solutions: Seq<Solution>,
    first: Expr,
    second: Expr,
)
    ensures
        keep(keep(solutions, condition(world, first)), condition(world, second)) == keep(
            solutions,
            condition(world, and_all(seq![second, first])),
        ),
{
    let both = and_all(seq![second, first]);
    let (a, b, c) = (condition(world, first), condition(world, second), condition(world, both));
    lemma_keep_twice(solutions, a, b);
    let two = |item: Solution| a(item) && b(item);
    assert forall|i: int| 0 <= i < solutions.len() implies two(#[trigger] solutions[i]) == c(
        solutions[i],
    ) by {
        let s = solutions[i];
        let parts = seq![second, first];
        lemma_and_all_holds(world, parts, s);
        assert(holds(world, parts[0], s) == b(s));
        assert(holds(world, parts[1], s) == a(s));
        assert(holds(world, both, s) == c(s));
    }
    lemma_keep_equal(solutions, two, c);
}

pub proof fn lemma_filter(world: World, inner: Plan, expression: Expr, input: Solution)
    ensures
        eval(world, filter(inner, expression), input) == keep(
            eval(world, inner, input),
            condition(world, expression),
        ),
{
    let plain = without_singleton_and(expression);
    let l = eval(world, inner, input);
    assert forall|i: int| 0 <= i < l.len() implies holds(world, plain, #[trigger] l[i]) == holds(
        world,
        expression,
        l[i],
    ) by {
        lemma_without_singleton(world, expression, l[i]);
    }
    lemma_same_condition(world, l, plain, expression);
    lemma_plain_filter(world, inner, expression, input);
}

/// The same where a conjunction of one expression is that expression.
proof fn lemma_plain_filter(world: World, inner: Plan, expression: Expr, input: Solution)
    ensures
        eval(world, filter(inner, expression), input) == keep(
            eval(world, inner, input),
            condition(world, without_singleton_and(expression)),
        ),
{
    let plain = without_singleton_and(expression);
    let l = eval(world, inner, input);
    let ok = condition(world, plain);
    if is_empty(inner) {
        lemma_empty(world, inner, input);
        lemma_empty(world, empty(), input);
    } else {
        match known_truth(plain) {
            Some(b) => {
                assert forall|i: int| 0 <= i < l.len() implies ok(#[trigger] l[i]) == b by {
                    lemma_known_condition(world, plain, b, l[i]);
                }
                if b {
                    lemma_keep_all(l, ok);
                } else {
                    lemma_keep_none(l, ok);
                    lemma_empty(world, empty(), input);
                }
            },
            None => {
                if let Plan::Filter { expression: nested, inner: deeper } = inner {
                    lemma_filter_twice(world, eval(world, *deeper, input), nested, plain);
                }
            },
        }
    }
}

pub proof fn lemma_extend(
    world: World,
    inner: Plan,
    variable: Seq<char>,
    expression: Expr,
    input: Solution,
)
    ensures
        eval(world, extend(inner, variable, expression), input) == gather(
            eval(world, inner, input),
            extender(world, variable, expression),
        ),
{
    if is_empty(inner) {
        lemma_empty(world, inner, input);
        lemma_empty(world, empty(), input);
    }
}

pub proof fn lemma_order_by(
    world: World,
    inner: Plan,
    expression: Seq<OrderExpr>,
    input: Solution,
)
    ensures
        eval(world, order_by(inner, expression), input) == eval(world, inner, input),
{
    if is_empty(inner) {
        lemma_empty(world, inner, input);
        lemma_empty(world, empty(), input);
    }
}

pub proof fn lemma_distinct(world: World, inner: Plan, input: Solution)
    ensures
        eval(world, distinct(inner), input) == once(eval(world, inner, input)),
        eval(world, reduced(inner), input) == if world.reduces {
            once(eval(world, inner, input))
        } else {
            eval(world, inner, input)
        },
{
    if is_empty(inner) {
        lemma_empty(world, inner, input);
        lemma_empty(world, empty(), input);
    }
}

/// What the solutions add, joined with the input again, are the solutions.
pub proof fn lemma_added_joined(input: Solution, solutions: Seq<Solution>)
    requires
        all_extend(solutions, input),
    ensures
        joined_with(input, added(solutions, input)) == solutions,
    decreases solutions.len(),
{
    let g = |other: Solution| merged(input, other);
    if solutions.len() == 0 {
        assert(added(solutions, input) =~= seq![]);
        assert(joined_with(input, added(solutions, input)) =~= solutions);
    } else {
        let shorter = solutions.drop_last();
        let last = solutions.last();
        assert(all_extend(shorter, input)) by {
            assert forall|i: int| 0 <= i < shorter.len() implies extends(
                #[trigger] shorter[i],
                input,
            ) by {
                assert(extends(solutions[i], input));
            }
        }
        lemma_added_joined(input, shorter);
        assert(extends(solutions[solutions.len() - 1], input));
        let shown = hide_variables(last, input.dom());
        assert(merge(input, shown) =~= last);
        assert(compatible(input, shown));
        lemma_gather_concat(added(shorter, input), seq![shown], g);
        lemma_gather_single(shown, g);
        assert(added(solutions, input) == added(shorter, input) + seq![shown]);
        assert(joined_with(input, added(solutions, input)) =~= solutions);
    }
}

pub proof fn lemma_slice(
    world: World,
    inner: Plan,
    start: usize,
    length: Option<usize>,
    input: Solution,
)
    requires
        regular(world),
    ensures
        same(
            eval(world, slice(inner, start, length), input),
            joined_with(
                input,
                (world.slice)(
                    start,
                    length,
                    added(eval(world, inner, input), input).to_multiset(),
                ),
            ),
        ),
{
    let l = eval(world, inner, input);
    let bag = added(l, input);
    let kept = (world.slice)(start, length, bag.to_multiset());
    if is_empty(inner) {
        lemma_empty(world, inner, input);
        lemma_empty(world, empty(), input);
        assert(bag =~= seq![]);
        bag.to_multiset_ensures();
        if kept.len() > 0 {
            assert(bag.to_multiset().count((world.slice)(start, length, bag.to_multiset())[0]) > 0);
            assert(bag.contains(kept[0]));
        }
        assert(kept =~= seq![]);
        assert(joined_with(input, kept) =~= seq![]);
    } else if start == 0 && length is None {
        lemma_eval_extends(world, inner, input);
        lemma_added_joined(input, l);
        assert(same(kept, bag));
        lemma_gather_order(kept, bag, |other: Solution| merged(input, other));
    }
}

pub proof fn lemma_group(
    world: World,
    inner: Plan,
    variables: Seq<Seq<char>>,
    aggregates: Seq<(Seq<char>, AggregateExpr)>,
    input: Solution,
)
    requires
        regular(world),
    ensures
        eval(world, group(inner, variables, aggregates), input) == eval(
            world,
            (Plan::Group { inner: Box::new(inner), variables, aggregates }),
            input,
        ),
{
    if is_empty(inner) && variables.len() > 0 {
        let base = hide_variables(input, hidden(inner, variables));
        lemma_empty(world, inner, base);
        lemma_empty(world, empty(), input);
        let bag = grouped(eval(world, inner, base), base, variables);
        assert(bag =~= seq![]);
        bag.to_multiset_ensures();
        assert(bag.to_multiset() =~= Multiset::<Solution>::empty()) by {
            assert forall|x: Solution| bag.to_multiset().count(x) == 0 by {
                if bag.to_multiset().count(x) > 0 {
                    assert(bag.contains(x));
                }
            }
        }
        assert((world.group)(variables, aggregates, Multiset::<Solution>::empty()) == Seq::<
            Solution,
        >::empty());
        assert(joined_with(input, Seq::<Solution>::empty()) =~= seq![]);
    }
}

proof fn lemma_row_short(
    variables: Seq<Seq<char>>,
    fewer: Seq<Seq<char>>,
    row: Row,
    count: int,
)
    requires
        fewer.len() <= variables.len(),
        fewer == variables.take(fewer.len() as int),
        row.len() <= fewer.len(),
        count <= variables.len(),
    ensures
        row_solutions(variables, row, count) == row_solutions(
            fewer,
            row,
            if count <= fewer.len() {
                count
            } else {
                fewer.len() as int
            },
        ),
    decreases count,
{
    if count > 0 {
        lemma_row_short(variables, fewer, row, count - 1);
        if count <= fewer.len() {
            assert(variables[count - 1] == fewer[count - 1]);
        }
    }
}

proof fn lemma_width(bindings: Seq<Row>, r: int)
    requires
        0 <= r < bindings.len(),
    ensures
        bindings[r].len() <= width(bindings),
    decreases bindings.len(),
{
    if r < bindings.len() - 1 {
        lemma_width(bindings.drop_last(), r);
    }
}

pub proof fn lemma_values(
    world: World,
    variables: Seq<Seq<char>>,
    bindings: Seq<Row>,
    input: Solution,
)
    ensures
        eval(world, values(variables, bindings), input) == eval(
            world,
            (Plan::Values { variables, bindings }),
            input,
        ),
{
    let columns = width(bindings);
    if columns < variables.len() {
        let fewer = variables.take(columns as int);
        let f = |row: Row| row_solutions(variables, row, variables.len() as int);
        let g = |row: Row| row_solutions(fewer, row, fewer.len() as int);
        assert forall|r: int| 0 <= r < bindings.len() implies f(#[trigger] bindings[r]) == g(
            bindings[r],
        ) by {
            lemma_width(bindings, r);
            lemma_row_short(variables, fewer, bindings[r], variables.len() as int);
        }
        lemma_gather_equal(bindings, f, g);
    }
}

/// Whether there is a solution, decided at once for the trivial tables.
pub proof fn lemma_exists(world: World, inner: Plan, s: Solution)
    ensures
        value(world, exists_plan(inner), s) == value(world, Expr::Exists(Box::new(inner)), s),
{
    lemma_known(world, truth(true), s);
    if is_empty(inner) {
        lemma_empty(world, inner, s);
    } else if is_empty_singleton(inner) {
        lemma_singleton(world, inner, s);
    }
}

} // verus!
