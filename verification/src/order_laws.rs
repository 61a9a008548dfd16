//! What is promised of the order in which a query is answered.

use vstd::prelude::*;

use crate::algebra::{Expr, OrderExpr, Plan};
use crate::bags::{lemma_same_items, once, same};
use crate::builders::{
    and_all, distinct, empty, filter, is_empty, order_by, project, reduced, slice, truth,
};
use crate::expr_laws::lemma_bool_truth;
use crate::laws::{empty_world, law_no_new_variables, law_optimize_preserves, lemma_nothing_placed};
use crate::limits::Limits;
use crate::lookups::correlation_threshold;
use crate::normalize::{normalize, normalize_orders};
use crate::normalize_laws::{
    lemma_hidden_less, lemma_normalize, lemma_normalize_expr, lemma_normalize_tamer,
    lemma_solution_placed, placed,
};
use crate::optimizer::lemma_parts_lower;
use crate::push_filters::push;
use crate::reorder::{optimize, reorder};
use crate::rewriting::{each_once, lemma_once_less};
use crate::scope::binds;
use crate::scoping::{lemma_scoped_hygienic, plan_paths, scoped, scoped_expr, Names};
use crate::semantics::{eval, hidden, regular, value, World};
use crate::solutions::{hide_variables, merge, Solution};
use crate::type_inference::{infer, Types};
use crate::variables::plan_variables;

verus! {

/// Whether a criterion asks for a solution to come before another.
pub open spec fn goes_before(world: World, criterion: OrderExpr, a: Solution, b: Solution) -> bool {
    match criterion {
        OrderExpr::Asc(e) => (world.before)(value(world, e, a), value(world, e, b)),
        OrderExpr::Desc(e) => (world.before)(value(world, e, b), value(world, e, a)),
    }
}

/// Whether some criteria ask for a solution to come before another: one of them does,
/// and those before it ask for nothing.
pub open spec fn sorts_before(
    world: World,
    criteria: Seq<OrderExpr>,
    a: Solution,
    b: Solution,
) -> bool {
    exists|k: int|
        0 <= k < criteria.len() && #[trigger] goes_before(world, criteria[k], a, b) && forall|m: int|
            0 <= m < k ==> !(#[trigger] goes_before(world, criteria[m], a, b)) && !goes_before(
                world,
                criteria[m],
                b,
                a,
            )
}

/// Whether solutions are in an order that some criteria allow.
pub open spec fn in_order(world: World, criteria: Seq<OrderExpr>, rows: Seq<Solution>) -> bool {
    forall|i: int, j: int|
        0 <= i < j < rows.len() ==> !sorts_before(
            world,
            criteria,
            #[trigger] rows[j],
            #[trigger] rows[i],
        )
}

/// The rows from a place on, and no more than a number of them.
pub open spec fn range_of(rows: Seq<Solution>, start: usize, length: Option<usize>) -> Seq<
    Solution,
> {
    let rest = if start <= rows.len() {
        rows.skip(start as int)
    } else {
        seq![]
    };
    match length {
        Some(length) => if length <= rest.len() {
            rest.take(length as int)
        } else {
            rest
        },
        None => rest,
    }
}

/// A row of a projection.
pub open spec fn shown_row(input: Solution, variables: Seq<Seq<char>>, row: Solution) -> Solution {
    merge(input, row.restrict(variables.to_set()))
}

/// Taking a range.
pub open spec fn cutter(start: usize, length: Option<usize>) -> spec_fn(Seq<Solution>) -> Seq<
    Solution,
> {
    |rows: Seq<Solution>| range_of(rows, start, length)
}

/// Showing some variables.
pub open spec fn shower(input: Solution, variables: Seq<Seq<char>>) -> spec_fn(
    Seq<Solution>,
) -> Seq<Solution> {
    |rows: Seq<Solution>| rows.map_values(|row: Solution| shown_row(input, variables, row))
}

/// Removing duplicates, or not.
pub open spec fn remover(removes: bool) -> spec_fn(Seq<Solution>) -> Seq<Solution> {
    |rows: Seq<Solution>|
        if removes {
            once(rows)
        } else {
            rows
        }
}

/// Whether rows are what becomes of some that are allowed.
pub open spec fn comes_from(
    allowed: spec_fn(Seq<Solution>) -> bool,
    change: spec_fn(Seq<Solution>) -> Seq<Solution>,
    rows: Seq<Solution>,
) -> bool {
    exists|all: Seq<Solution>| #[trigger] allowed(all) && rows == change(all)
}

/// Whether a plan may be answered with some rows in that order. Sorting asks for an
/// order that its criteria allow. Projections, ranges and the removal of duplicates
/// keep the order of the rows that they are given, and a range takes its rows by
/// their places in it. All other plans have their solutions in any order.
pub open spec fn may_answer(
    world: World,
    plan: Plan,
    input: Solution,
    rows: Seq<Solution>,
) -> bool
    decreases plan, 0nat,
{
    match plan {
        Plan::OrderBy { inner, expression } => if expression.len() == 0 {
            may_answer(world, *inner, input, rows)
        } else {
            same(rows, eval(world, *inner, input)) && in_order(world, expression, rows)
        },
        Plan::Slice { inner, start, length } => comes_from(
            answers(world, *inner, input),
            cutter(start, length),
            rows,
        ),
        Plan::Project { inner, variables } => comes_from(
            answers(world, *inner, hide_variables(input, hidden(*inner, variables))),
            shower(input, variables),
            rows,
        ),
        Plan::Distinct { inner } => comes_from(
            answers(world, *inner, input),
            remover(true),
            rows,
        ),
        Plan::Reduced { inner } => comes_from(
            answers(world, *inner, input),
            remover(world.reduces),
            rows,
        ),
        _ => same(rows, eval(world, plan, input)),
    }
}

/// The rows that a plan may be answered with.
pub open spec fn answers(world: World, plan: Plan, input: Solution) -> spec_fn(
    Seq<Solution>,
) -> bool
    decreases plan, 1nat,
{
    |rows: Seq<Solution>| may_answer(world, plan, input, rows)
}

/// The expression of a criterion.
pub open spec fn criterion_expr(criterion: OrderExpr) -> Expr {
    match criterion {
        OrderExpr::Asc(e) | OrderExpr::Desc(e) => e,
    }
}

/// Whether a query is sorted, and what is sorted is only projected, cut or freed of
/// duplicates.
pub open spec fn is_sorted(plan: Plan) -> bool
    decreases plan,
{
    match plan {
        Plan::OrderBy { inner, expression } => expression.len() > 0 || is_sorted(*inner),
        Plan::Slice { inner, .. }
        | Plan::Project { inner, .. }
        | Plan::Distinct { inner }
        | Plan::Reduced { inner } => is_sorted(*inner),
        _ => false,
    }
}

/// Whether the criteria that a query is sorted by have their scopes in order.
pub open spec fn criteria_scoped(plan: Plan, outside: Names, threshold: nat) -> bool
    decreases plan,
{
    match plan {
        Plan::OrderBy { inner, expression } => {
            &&& expression.len() == 0 ==> criteria_scoped(*inner, outside, threshold)
            &&& forall|k: int|
                0 <= k < expression.len() ==> scoped_expr(
                    criterion_expr(#[trigger] expression[k]),
                    binds(*inner),
                    outside.union(plan_variables(*inner)),
                    threshold,
                )
        },
        Plan::Slice { inner, .. }
        | Plan::Project { inner, .. }
        | Plan::Distinct { inner }
        | Plan::Reduced { inner } => criteria_scoped(*inner, outside, threshold),
        _ => true,
    }
}

/// Criteria of the same directions whose expressions have the same values on some
/// rows allow the same orders of these rows.
proof fn lemma_same_order(
    world: World,
    new: Seq<OrderExpr>,
    old: Seq<OrderExpr>,
    rows: Seq<Solution>,
)
    requires
        new.len() == old.len(),
        forall|k: int, i: int|
            0 <= k < new.len() && 0 <= i < rows.len() ==> value(
                world,
                criterion_expr(#[trigger] new[k]),
                #[trigger] rows[i],
            ) == value(world, criterion_expr(old[k]), rows[i]),
        forall|k: int| 0 <= k < new.len() ==> (#[trigger] new[k] is Asc) == (old[k] is Asc),
    ensures
        in_order(world, new, rows) == in_order(world, old, rows),
{
    assert forall|i: int, j: int| 0 <= i < j < rows.len() implies sorts_before(
        world,
        new,
        #[trigger] rows[j],
        #[trigger] rows[i],
    ) == sorts_before(world, old, rows[j], rows[i]) by {
        let (a, b) = (rows[j], rows[i]);
        assert forall|k: int| 0 <= k < new.len() implies #[trigger] goes_before(
            world,
            new[k],
            a,
            b,
        ) == goes_before(world, old[k], a, b) && goes_before(world, new[k], b, a) == goes_before(
            world,
            old[k],
            b,
            a,
        ) by {
            assert(value(world, criterion_expr(new[k]), rows[i]) == value(
                world,
                criterion_expr(old[k]),
                rows[i],
            ));
            assert(value(world, criterion_expr(new[k]), rows[j]) == value(
                world,
                criterion_expr(old[k]),
                rows[j],
            ));
            assert((new[k] is Asc) == (old[k] is Asc));
        }
        if sorts_before(world, new, a, b) {
            let k = choose|k: int|
                0 <= k < new.len() && #[trigger] goes_before(world, new[k], a, b) && forall|m: int|
                    0 <= m < k ==> !(#[trigger] goes_before(world, new[m], a, b)) && !goes_before(
                        world,
                        new[m],
                        b,
                        a,
                    );
            assert(goes_before(world, old[k], a, b));
            assert forall|m: int| 0 <= m < k implies !(#[trigger] goes_before(world, old[m], a, b))
                && !goes_before(world, old[m], b, a) by {
                assert(!goes_before(world, new[m], a, b));
            }
        }
        if sorts_before(world, old, a, b) {
            let k = choose|k: int|
                0 <= k < old.len() && #[trigger] goes_before(world, old[k], a, b) && forall|m: int|
                    0 <= m < k ==> !(#[trigger] goes_before(world, old[m], a, b)) && !goes_before(
                        world,
                        old[m],
                        b,
                        a,
                    );
            assert(goes_before(world, new[k], a, b));
            assert forall|m: int| 0 <= m < k implies !(#[trigger] goes_before(world, new[m], a, b))
                && !goes_before(world, new[m], b, a) by {
                assert(!goes_before(world, old[m], a, b));
            }
        }
    }
    if in_order(world, new, rows) {
        assert forall|i: int, j: int| 0 <= i < j < rows.len() implies !sorts_before(
            world,
            old,
            #[trigger] rows[j],
            #[trigger] rows[i],
        ) by {
            assert(!sorts_before(world, new, rows[j], rows[i]));
        }
    }
    if in_order(world, old, rows) {
        assert forall|i: int, j: int| 0 <= i < j < rows.len() implies !sorts_before(
            world,
            new,
            #[trigger] rows[j],
            #[trigger] rows[i],
        ) by {
            assert(!sorts_before(world, old, rows[j], rows[i]));
        }
    }
}

/// A table without rows is answered with nothing.
proof fn lemma_empty_answer(world: World, plan: Plan, input: Solution, rows: Seq<Solution>)
    requires
        is_empty(plan),
    ensures
        may_answer(world, plan, input, rows) <==> rows == Seq::<Solution>::empty(),
{
    assert(eval(world, plan, input) =~= seq![]);
    if may_answer(world, plan, input, rows) {
        lemma_same_items(rows, eval(world, plan, input));
        if rows.len() > 0 {
            assert(rows.contains(rows[0]));
        }
        assert(rows =~= seq![]);
    }
}

/// No filters leave an optimized plan as it is.
proof fn lemma_unfiltered(plan: Plan)
    ensures
        filter(plan, and_all(seq![])) == if is_empty(plan) {
            empty()
        } else {
            plan
        },
{
    lemma_bool_truth(empty_world(), true);
    assert(and_all(seq![]) == truth(true));
}

/// What modifies the answer to a query is kept around what it modifies.
proof fn lemma_optimized_parts(plan: Plan, types: Types, limits: Limits)
    ensures
        match plan {
            Plan::OrderBy { inner, expression } => {
                let i = optimize(*inner, types, limits);
                optimize(plan, types, limits) == if expression.len() == 0 {
                    i
                } else {
                    order_by(
                        i,
                        normalize_orders(expression, infer(normalize(*inner, types), types)),
                    )
                }
            },
            Plan::Slice { inner, start, length } => {
                let i = optimize(*inner, types, limits);
                optimize(plan, types, limits) == if start == 0 && length is None {
                    i
                } else {
                    slice(i, start, length)
                }
            },
            Plan::Project { inner, variables } => optimize(plan, types, limits) == project(
                optimize(*inner, types, limits),
                variables,
            ),
            Plan::Distinct { inner } => optimize(plan, types, limits) == distinct(
                optimize(*inner, types, limits),
            ),
            Plan::Reduced { inner } => optimize(plan, types, limits) == reduced(
                optimize(*inner, types, limits),
            ),
            _ => true,
        },
{
    let none = Seq::<Expr>::empty();
    match plan {
        Plan::OrderBy { inner, .. }
        | Plan::Slice { inner, .. }
        | Plan::Project { inner, .. }
        | Plan::Distinct { inner }
        | Plan::Reduced { inner } => {
            let n = normalize(*inner, types);
            let whole = normalize(plan, types);
            let r = reorder(n, types, limits);
            let i = push(r, none, types);
            lemma_parts_lower(whole);
            lemma_unfiltered(empty());
            lemma_unfiltered(n);
            lemma_unfiltered(r);
            assert(reorder(empty(), types, limits) == empty());
            assert(push(empty(), none, types) == empty());
            assert(is_empty(n) ==> r == n);
            assert(is_empty(r) ==> i == empty());
            match plan {
                Plan::Slice { start, length, .. } => {
                    lemma_unfiltered(slice(i, start, length));
                },
                Plan::Project { variables, .. } => {
                    lemma_unfiltered(project(i, variables));
                },
                _ => {},
            }
        },
        _ => {},
    }
}

/// The criteria of an optimized plan allow the same orders.
proof fn lemma_criteria_kept(
    world: World,
    inner: Plan,
    expression: Seq<OrderExpr>,
    types: Types,
    threshold: nat,
    input: Solution,
    outside: Names,
    rows: Seq<Solution>,
)
    requires
        regular(world),
        placed(input, types, outside),
        scoped(inner, set![], outside, set![], threshold),
        forall|k: int|
            0 <= k < expression.len() ==> scoped_expr(
                criterion_expr(#[trigger] expression[k]),
                binds(inner),
                outside.union(plan_variables(inner)),
                threshold,
            ),
        same(rows, eval(world, inner, input)),
    ensures
        in_order(
            world,
            normalize_orders(expression, infer(normalize(inner, types), types)),
            rows,
        ) == in_order(world, expression, rows),
{
    let n = normalize(inner, types);
    let t = infer(n, types);
    let new = normalize_orders(expression, t);
    let none = Set::<Seq<char>>::empty();
    lemma_normalize(world, inner, types, input, none, outside, none, threshold);
    lemma_normalize_tamer(inner, types, threshold);
    assert(scoped(n, none, outside, none, threshold));
    lemma_scoped_hygienic(n, none, outside, none, threshold);
    lemma_same_items(rows, eval(world, inner, input));
    lemma_same_items(eval(world, n, input), eval(world, inner, input));
    let around = outside.union(plan_variables(inner));
    assert forall|k: int, i: int| 0 <= k < new.len() && 0 <= i < rows.len() implies value(
        world,
        criterion_expr(#[trigger] new[k]),
        #[trigger] rows[i],
    ) == value(world, criterion_expr(expression[k]), rows[i]) by {
        let s = rows[i];
        assert(rows.contains(s));
        assert(eval(world, n, input).contains(s));
        lemma_solution_placed(world, n, input, types, outside, s);
        assert(s.dom().subset_of(around));
        let e = criterion_expr(expression[k]);
        assert(scoped_expr(e, binds(inner), around, threshold));
        lemma_normalize_expr(world, e, t, s, binds(inner), around, threshold);
    }
    lemma_same_order(world, new, expression, rows);
}

/// Whether two plans may be answered with the same rows in the same orders.
spec fn answers_alike(world: World, new: Plan, old: Plan, input: Solution) -> bool {
    forall|all: Seq<Solution>| #[trigger]
        may_answer(world, new, input, all) == may_answer(world, old, input, all)
}

proof fn lemma_slices_alike(
    world: World,
    new: Plan,
    old: Plan,
    start: usize,
    length: Option<usize>,
    input: Solution,
)
    requires
        answers_alike(world, new, old, input),
    ensures
        start == 0 && length is None ==> answers_alike(
            world,
            new,
            (Plan::Slice { inner: Box::new(old), start, length }),
            input,
        ),
        start != 0 || length is Some ==> answers_alike(
            world,
            slice(new, start, length),
            (Plan::Slice { inner: Box::new(old), start, length }),
            input,
        ),
{
    let whole = Plan::Slice { inner: Box::new(old), start, length };
    let cut = cutter(start, length);
    lemma_change_alike(world, new, old, input, cut);
    if start == 0 && length is None {
        assert forall|rows: Seq<Solution>| #[trigger]
            may_answer(world, new, input, rows) == may_answer(world, whole, input, rows) by {
            assert forall|all: Seq<Solution>| #[trigger] cut(all) == all by {
                assert(all.skip(0) =~= all);
            }
            assert(answers(world, old, input)(rows) == may_answer(world, old, input, rows));
        }
    } else {
        assert(cut(seq![]) =~= seq![]);
        assert forall|rows: Seq<Solution>| #[trigger]
            may_answer(world, slice(new, start, length), input, rows) == may_answer(
            world,
            whole,
            input,
            rows,
        ) by {
            lemma_changed_empty(world, new, input, cut, rows);
            let raw = Plan::Slice { inner: Box::new(new), start, length };
            assert(may_answer(world, raw, input, rows) == comes_from(
                answers(world, new, input),
                cut,
                rows,
            ));
            assert(may_answer(world, whole, input, rows) == comes_from(
                answers(world, old, input),
                cut,
                rows,
            ));
        }
    }
}

/// Changing the rows of plans that are answered alike.
proof fn lemma_change_alike(
    world: World,
    new: Plan,
    old: Plan,
    input: Solution,
    change: spec_fn(Seq<Solution>) -> Seq<Solution>,
)
    requires
        answers_alike(world, new, old, input),
    ensures
        forall|rows: Seq<Solution>| #[trigger]
            comes_from(answers(world, new, input), change, rows) == comes_from(
                answers(world, old, input),
                change,
                rows,
            ),
{
    let (a, b) = (answers(world, new, input), answers(world, old, input));
    assert(a =~= b) by {
        assert forall|all: Seq<Solution>| #[trigger] a(all) == b(all) by {
            assert(a(all) == may_answer(world, new, input, all));
            assert(b(all) == may_answer(world, old, input, all));
        }
    }
}

/// Changing no rows.
proof fn lemma_changed_empty(
    world: World,
    plan: Plan,
    input: Solution,
    change: spec_fn(Seq<Solution>) -> Seq<Solution>,
    rows: Seq<Solution>,
)
    requires
        change(seq![]) == Seq::<Solution>::empty(),
    ensures
        is_empty(plan) ==> comes_from(answers(world, plan, input), change, rows) == may_answer(
            world,
            empty(),
            input,
            rows,
        ),
{
    let none = Seq::<Solution>::empty();
    let a = answers(world, plan, input);
    lemma_empty_answer(world, empty(), input, rows);
    if is_empty(plan) {
        lemma_empty_answer(world, plan, input, none);
        assert(a(none) == may_answer(world, plan, input, none));
        if comes_from(a, change, rows) {
            let all = choose|all: Seq<Solution>| #[trigger] a(all) && rows == change(all);
            assert(a(all) == may_answer(world, plan, input, all));
            lemma_empty_answer(world, plan, input, all);
        }
    }
}

proof fn lemma_distinct_alike(world: World, new: Plan, old: Plan, input: Solution)
    requires
        answers_alike(world, new, old, input),
    ensures
        answers_alike(world, distinct(new), (Plan::Distinct { inner: Box::new(old) }), input),
        answers_alike(world, reduced(new), (Plan::Reduced { inner: Box::new(old) }), input),
{
    let (a, b) = (Plan::Distinct { inner: Box::new(old) }, Plan::Reduced { inner: Box::new(old) });
    let (f, g) = (remover(true), remover(world.reduces));
    let c = Plan::Distinct { inner: Box::new(new) };
    let d = Plan::Reduced { inner: Box::new(new) };
    assert(once(Seq::<Solution>::empty()) =~= seq![]);
    lemma_change_alike(world, new, old, input, f);
    lemma_change_alike(world, new, old, input, g);
    assert forall|rows: Seq<Solution>| #[trigger]
        may_answer(world, distinct(new), input, rows) == may_answer(world, a, input, rows) by {
        lemma_changed_empty(world, new, input, f, rows);
        assert(may_answer(world, c, input, rows) == comes_from(
            answers(world, new, input),
            f,
            rows,
        ));
        assert(may_answer(world, a, input, rows) == comes_from(
            answers(world, old, input),
            f,
            rows,
        ));
    }
    assert forall|rows: Seq<Solution>| #[trigger]
        may_answer(world, reduced(new), input, rows) == may_answer(world, b, input, rows) by {
        lemma_changed_empty(world, new, input, g, rows);
        assert(may_answer(world, d, input, rows) == comes_from(
            answers(world, new, input),
            g,
            rows,
        ));
        assert(may_answer(world, b, input, rows) == comes_from(
            answers(world, old, input),
            g,
            rows,
        ));
    }
}

proof fn lemma_projected_alike(
    world: World,
    new: Plan,
    old: Plan,
    variables: Seq<Seq<char>>,
    input: Solution,
)
    requires
        answers_alike(world, new, old, input),
        hidden(new, variables).disjoint(input.dom()),
        hidden(old, variables).disjoint(input.dom()),
    ensures
        answers_alike(
            world,
            project(new, variables),
            (Plan::Project { inner: Box::new(old), variables }),
            input,
        ),
{
    assert(hide_variables(input, hidden(old, variables)) =~= input);
    assert(hide_variables(input, hidden(new, variables)) =~= input);
    let (a, b) = (project(new, variables), Plan::Project { inner: Box::new(old), variables });
    let show = shower(input, variables);
    lemma_change_alike(world, new, old, input, show);
    assert forall|rows: Seq<Solution>| #[trigger]
        may_answer(world, a, input, rows) == may_answer(world, b, input, rows) by {
        assert(may_answer(world, a, input, rows) == comes_from(
            answers(world, new, input),
            show,
            rows,
        ));
        assert(may_answer(world, b, input, rows) == comes_from(
            answers(world, old, input),
            show,
            rows,
        ));
    }
}

/// Sorted plans with the same solutions, where the criteria allow the same orders.
proof fn lemma_sorted_alike(
    world: World,
    new: Plan,
    old: Plan,
    criteria: Seq<OrderExpr>,
    expression: Seq<OrderExpr>,
    input: Solution,
)
    requires
        same(eval(world, new, input), eval(world, old, input)),
        criteria.len() == expression.len(),
        expression.len() > 0,
        forall|rows: Seq<Solution>| #[trigger]
            same(rows, eval(world, old, input)) ==> in_order(world, criteria, rows) == in_order(
                world,
                expression,
                rows,
            ),
    ensures
        answers_alike(
            world,
            order_by(new, criteria),
            (Plan::OrderBy { inner: Box::new(old), expression }),
            input,
        ),
{
    let whole = Plan::OrderBy { inner: Box::new(old), expression };
    let none: Seq<Solution> = seq![];
    assert forall|rows: Seq<Solution>| #[trigger]
        may_answer(world, order_by(new, criteria), input, rows) == may_answer(
        world,
        whole,
        input,
        rows,
    ) by {
        if is_empty(new) {
            assert(eval(world, new, input) =~= none);
            lemma_empty_answer(world, empty(), input, rows);
            if same(rows, eval(world, old, input)) {
                lemma_same_items(rows, none);
                if rows.len() > 0 {
                    assert(rows.contains(rows[0]));
                }
                assert(rows =~= none);
            }
        } else {
            assert(same(rows, eval(world, new, input)) == same(rows, eval(world, old, input)));
        }
    }
}

/// The optimizer preserves order: a sorted plan and the optimized plan may be answered
/// with the same rows in the same orders. The criteria that sort them allow the same
/// orders, and ranges take the same rows. It holds where the scopes of the plan and
/// of the criteria are in order, and the paths that the plan joins with themselves
/// match each pair of nodes once.
#[verifier::spinoff_prover]
#[verifier::rlimit(40)]
pub proof fn law_order_preserved(
    world: World,
    plan: Plan,
    types: Types,
    limits: Limits,
    input: Solution,
    outside: Names,
    rows: Seq<Solution>,
)
    requires
        regular(world),
        is_sorted(plan),
        placed(input, types, outside),
        scoped(plan, set![], outside, set![], correlation_threshold(limits)),
        criteria_scoped(plan, outside, correlation_threshold(limits)),
        each_once(world, plan_paths(plan)),
    ensures
        may_answer(world, optimize(plan, types, limits), input, rows) <==> may_answer(
            world,
            plan,
            input,
            rows,
        ),
{
    lemma_order_preserved(world, plan, types, limits, input, outside);
}

#[verifier::spinoff_prover]
#[verifier::rlimit(40)]
proof fn lemma_order_preserved(
    world: World,
    plan: Plan,
    types: Types,
    limits: Limits,
    input: Solution,
    outside: Names,
)
    requires
        regular(world),
        is_sorted(plan),
        placed(input, types, outside),
        scoped(plan, set![], outside, set![], correlation_threshold(limits)),
        criteria_scoped(plan, outside, correlation_threshold(limits)),
        each_once(world, plan_paths(plan)),
    ensures
        answers_alike(world, optimize(plan, types, limits), plan, input),
    decreases plan,
{
    lemma_optimized_parts(plan, types, limits);
    match plan {
        Plan::OrderBy { inner, expression } => {
            let i = optimize(*inner, types, limits);
            lemma_once_less(world, plan_paths(*inner), plan_paths(plan));
            if expression.len() == 0 {
                lemma_order_preserved(world, *inner, types, limits, input, outside);
            } else {
                law_optimize_preserves(world, *inner, types, limits, input, outside);
                let criteria = normalize_orders(expression, infer(normalize(*inner, types), types));
                assert forall|rows: Seq<Solution>| #[trigger]
                    same(rows, eval(world, *inner, input)) implies in_order(world, criteria, rows)
                    == in_order(world, expression, rows) by {
                    lemma_criteria_kept(
                        world,
                        *inner,
                        expression,
                        types,
                        correlation_threshold(limits),
                        input,
                        outside,
                        rows,
                    );
                }
                lemma_sorted_alike(world, i, *inner, criteria, expression, input);
            }
        },
        Plan::Slice { inner, start, length } => {
            lemma_once_less(world, plan_paths(*inner), plan_paths(plan));
            lemma_order_preserved(world, *inner, types, limits, input, outside);
            let i = optimize(*inner, types, limits);
            lemma_slices_alike(world, i, *inner, start, length, input);
        },
        Plan::Distinct { inner } | Plan::Reduced { inner } => {
            lemma_once_less(world, plan_paths(*inner), plan_paths(plan));
            lemma_order_preserved(world, *inner, types, limits, input, outside);
            lemma_distinct_alike(world, optimize(*inner, types, limits), *inner, input);
        },
        Plan::Project { inner, variables } => {
            let i = optimize(*inner, types, limits);
            lemma_once_less(world, plan_paths(*inner), plan_paths(plan));
            lemma_order_preserved(world, *inner, types, limits, input, outside);
            law_no_new_variables(*inner, types, limits);
            lemma_hidden_less(i, *inner, variables, outside, input);
            lemma_projected_alike(world, i, *inner, variables, input);
        },
        _ => {},
    }
}

/// The optimizer preserves the order in which a sorted query is answered.
pub proof fn law_sorted_answer_preserved(
    world: World,
    plan: Plan,
    limits: Limits,
    rows: Seq<Solution>,
)
    requires
        regular(world),
        is_sorted(plan),
        scoped(plan, set![], set![], set![], correlation_threshold(limits)),
        criteria_scoped(plan, set![], correlation_threshold(limits)),
        each_once(world, plan_paths(plan)),
    ensures
        may_answer(world, optimize(plan, seq![], limits), Map::empty(), rows) <==> may_answer(
            world,
            plan,
            Map::empty(),
            rows,
        ),
{
    lemma_nothing_placed();
    law_order_preserved(world, plan, seq![], limits, Map::empty(), set![], rows);
}

} // verus!
