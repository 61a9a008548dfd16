//! What optimization promises of the optimized plan.
//!
//! The promises about solutions take functions as deterministic: they say nothing
//! of plans that call `RAND`, `UUID`, `STRUUID` or `BNODE`.

use vstd::multiset::Multiset;
use vstd::prelude::*;

use crate::algebra::{AggregateExpr, Expr, FunctionView, PathExpr, Plan};
use crate::bags::same;
use crate::builders::{and_all, empty, filter, group, is_empty, project, slice, truth};
use crate::estimate::{contains_kleene, path_size, subclass_entry_bound, term_bound};
use crate::expr_laws::lemma_bool_truth;
use crate::for_loop::fits;
use crate::limits::Limits;
use crate::lookups::correlation_threshold;
use crate::measure::{depth, lower, weight};
use crate::normalize::normalize;
use crate::normalize_laws::{lemma_normalize, lemma_normalize_tamer, placed};
use crate::plan_taming::lemma_tamer_self;
use crate::push_filters::push;
use crate::push_laws::{law_push_preserves, lemma_nothing_pushed, lemma_push_variables};
use crate::reorder::{optimize, reorder, reorder_below};
use crate::reorder_steps::lemma_step_better;
use crate::rewriting::{better, each_once, lemma_once_less, preserved};
use crate::scoping::{lemma_plain_scoped, lemma_scoped_hygienic, plain, plan_paths, scoped, Names};
use crate::semantics::{allowed, bool_term, eval, has_types, regular, Operator, World};
use crate::solutions::{lookup, Solution, Term};
use crate::type_inference::{distinct_variables, infer_call, lemma_position, type_of, Types};
use crate::variables::{exprs_variables, plan_variables};

verus! {

/// Reordering makes every plan better.
proof fn lemma_reorder_better(world: World, plan: Plan, types: Types, limits: Limits)
    requires
        regular(world),
    ensures
        better(world, reorder(plan, types, limits), plan, types, correlation_threshold(limits)),
    decreases depth(plan), weight(plan),
{
    let rec = reorder_below(plan, limits);
    assert forall|part: Plan, t: Types| better(world, #[trigger] rec(part, t), part, t, correlation_threshold(limits)) by {
        if lower(part, plan) {
            lemma_reorder_better(world, part, t, limits);
        } else {
            lemma_tamer_self(part, correlation_threshold(limits));
        }
    }
    lemma_step_better(world, plan, types, limits, rec);
}

/// Reordering preserves the solutions of a plan, each as often as before: where
/// the scopes of the plan are in order, and the paths that it joins with
/// themselves match each pair of nodes once, as predicates and repetitions do.
pub proof fn law_reorder_preserves(
    world: World,
    plan: Plan,
    types: Types,
    limits: Limits,
    input: Solution,
    sure: Names,
    outside: Names,
    late: Names,
)
    requires
        regular(world),
        placed(input, types, outside),
        sure.subset_of(input.dom()),
        scoped(plan, sure, outside, late, correlation_threshold(limits)),
        each_once(world, plan_paths(plan)),
    ensures
        same(eval(world, reorder(plan, types, limits), input), eval(world, plan, input)),
{
    let new = reorder(plan, types, limits);
    lemma_reorder_better(world, plan, types, limits);
    assert(preserved(world, new, plan, types, input, sure, outside, late, correlation_threshold(limits)));
}

/// Optimization preserves the solutions of a plan, each as often as before, for
/// an input with values of given types: where the scopes of the plan are in
/// order, and the paths that it joins with themselves match each pair of nodes
/// once, as predicates and repetitions do.
pub proof fn law_optimize_preserves(
    world: World,
    plan: Plan,
    types: Types,
    limits: Limits,
    input: Solution,
    outside: Names,
)
    requires
        regular(world),
        placed(input, types, outside),
        scoped(plan, set![], outside, set![], correlation_threshold(limits)),
        each_once(world, plan_paths(plan)),
    ensures
        same(eval(world, optimize(plan, types, limits), input), eval(world, plan, input)),
{
    let none = Set::<Seq<char>>::empty();
    let n = normalize(plan, types);
    let r = reorder(n, types, limits);
    lemma_normalize(world, plan, types, input, none, outside, none, correlation_threshold(limits));
    lemma_normalize_tamer(plan, types, correlation_threshold(limits));
    lemma_once_less(world, plan_paths(n), plan_paths(plan));
    assert(scoped(n, none, outside, none, correlation_threshold(limits)));
    law_reorder_preserves(world, n, types, limits, input, none, outside, none);
    lemma_reorder_better(world, n, types, limits);
    assert(scoped(r, none, outside, none, correlation_threshold(limits)));
    lemma_scoped_hygienic(r, none, outside, none, correlation_threshold(limits));
    law_push_preserves(world, r, seq![], types, input, outside);
    lemma_nothing_pushed(world, eval(world, r, input), seq![]);
}

/// The optimizer preserves the answer to a query: where the scopes of its plan
/// are in order, and the paths that it joins with themselves match each pair of
/// nodes once, as predicates and repetitions do.
pub proof fn law_answer_preserved(world: World, plan: Plan, limits: Limits)
    requires
        regular(world),
        scoped(plan, set![], set![], set![], correlation_threshold(limits)),
        each_once(world, plan_paths(plan)),
    ensures
        same(
            eval(world, optimize(plan, seq![], limits), Map::empty()),
            eval(world, plan, Map::empty()),
        ),
{
    let input: Solution = Map::empty();
    let types: Types = seq![];
    lemma_nothing_placed();
    law_optimize_preserves(world, plan, types, limits, input, set![]);
}

/// The optimizer preserves the answer to every query without `EXISTS` and without
/// hidden variables in loops, whose optional parts only join and unite patterns,
/// where the paths that it joins with themselves match each pair of nodes once.
pub proof fn law_plain_answer_preserved(world: World, plan: Plan, limits: Limits)
    requires
        regular(world),
        plain(plan),
        each_once(world, plan_paths(plan)),
    ensures
        same(
            eval(world, optimize(plan, seq![], limits), Map::empty()),
            eval(world, plan, Map::empty()),
        ),
{
    lemma_plain_scoped(plan, set![], set![], set![], correlation_threshold(limits));
    law_answer_preserved(world, plan, limits);
}

/// The input of a query.
pub proof fn lemma_nothing_placed()
    ensures
        placed(Map::empty(), seq![], set![]),
        distinct_variables(seq![]),
{
    let input: Solution = Map::empty();
    let types: Types = seq![];
    assert(has_types(input, types)) by {
        assert forall|v: Seq<char>|
            allowed(
                #[trigger] type_of(types, v),
                lookup(input, v),
                Set::<Seq<char>>::empty().contains(v),
            ) by {
            lemma_position(types, v);
        }
    }
}

/// A value of the type that a function has.
spec fn some_result(name: FunctionView, count: nat) -> Option<Term> {
    let t = infer_call(name, count);
    if t.undef {
        None
    } else if t.named_node {
        Some(Term::NamedNode(seq![]))
    } else if t.blank_node {
        Some(Term::BlankNode(seq![]))
    } else if t.literal {
        Some(bool_term(true))
    } else {
        Some(
            Term::Triple(
                Box::new(Term::NamedNode(seq![])),
                seq![],
                Box::new(Term::NamedNode(seq![])),
            ),
        )
    }
}

/// The items of a bag in some order.
spec fn listed(bag: Multiset<Solution>) -> Seq<Solution> {
    choose|items: Seq<Solution>| #[trigger] items.to_multiset() == bag
}

proof fn lemma_listed(bag: Multiset<Solution>)
    ensures
        listed(bag).to_multiset() == bag,
    decreases bag.len(),
{
    broadcast use vstd::seq_lib::group_to_multiset_ensures;

    if bag.len() == 0 {
        assert(bag =~= Multiset::empty());
        assert(Seq::<Solution>::empty().to_multiset() =~= bag);
    } else {
        let x = bag.choose();
        assert(bag.count(x) > 0);
        let rest = bag.remove(x);
        lemma_listed(rest);
        let items = listed(rest).push(x);
        assert(items.to_multiset() =~= rest.insert(x));
        assert(rest.insert(x) =~= bag);
    }
}

/// The world without data.
pub closed spec fn empty_world() -> World {
    World {
        atom: |plan: Plan| seq![],
        truth: |term: Term| None,
        equals: |left: Term, right: Term| Some(left == right),
        operate: |operator: Operator, left: Term, right: Term| None,
        sign: |negative: bool, term: Term| None,
        call: |name: FunctionView, arguments: Seq<Option<Term>>| some_result(name, arguments.len()),
        group: |
            variables: Seq<Seq<char>>,
            aggregates: Seq<(Seq<char>, AggregateExpr)>,
            bag: Multiset<Solution>,
        | seq![],
        before: |a: Option<Term>, b: Option<Term>| false,
        slice: |start: usize, length: Option<usize>, bag: Multiset<Solution>| listed(bag),
        reduces: true,
    }
}

/// There is an evaluator that does what the query language asks for.
pub proof fn law_world_exists()
    ensures
        regular(empty_world()),
{
    let world = empty_world();
    assert forall|bag: Multiset<Solution>| #[trigger]
        (world.slice)(0, None, bag).to_multiset() == bag by {
        lemma_listed(bag);
    }
    assert forall|start: usize, length: Option<usize>, bag: Multiset<Solution>, i: int|
        0 <= i < (world.slice)(start, length, bag).len() implies bag.count(
        #[trigger] (world.slice)(start, length, bag)[i],
    ) > 0 by {
        broadcast use vstd::seq_lib::group_to_multiset_ensures;

        lemma_listed(bag);
        let items = listed(bag);
        assert(items.contains(items[i]));
    }
}

/// An optimized plan uses no other variables than the plan does.
pub proof fn law_no_new_variables(plan: Plan, types: Types, limits: Limits)
    requires
        distinct_variables(types),
    ensures
        plan_variables(optimize(plan, types, limits)).subset_of(plan_variables(plan)),
{
    let n = normalize(plan, types);
    let none = Seq::<Expr>::empty();
    law_world_exists();
    lemma_normalize_tamer(plan, types, correlation_threshold(limits));
    lemma_reorder_better(empty_world(), n, types, limits);
    lemma_push_variables(reorder(n, types, limits), none, types);
    assert(exprs_variables(none) =~= Set::<Seq<char>>::empty());
}

/// Nothing is filtered by no filters.
proof fn lemma_no_filters(plan: Plan)
    requires
        is_empty(plan) ==> plan == empty(),
    ensures
        filter(plan, and_all(seq![])) == plan,
{
    lemma_bool_truth(empty_world(), true);
    assert(and_all(seq![]) == truth(true));
}

/// A projection, a range, a grouping and a remote call are barriers: filters from
/// above do not get below them, so no variable that is hidden there gets into an
/// `EXISTS`, and nothing is sent along to an endpoint.
pub proof fn law_filters_stay_above(plan: Plan, filters: Seq<Expr>, types: Types)
    requires
        plan is Project || plan is Slice || plan is Group || plan is Service,
    ensures
        push(plan, filters, types) == filter(push(plan, seq![], types), and_all(filters)),
{
    let none = Seq::<Expr>::empty();
    match plan {
        Plan::Project { inner, variables } => {
            lemma_no_filters(project(push(*inner, none, types), variables));
        },
        Plan::Slice { inner, start, length } => {
            lemma_no_filters(slice(push(*inner, none, types), start, length));
        },
        Plan::Group { inner, variables, aggregates } => {
            lemma_no_filters(group(push(*inner, none, types), variables, aggregates));
        },
        Plan::Service { .. } => {
            lemma_no_filters(plan);
        },
        _ => {},
    }
}

/// What a remote endpoint evaluates is left to it as it is.
pub proof fn law_remote_calls_stay(plan: Plan, types: Types, limits: Limits)
    requires
        plan is Service,
    ensures
        optimize(plan, types, limits) == plan,
{
    lemma_no_filters(plan);
}

/// A repeated path between two ends that are bound costs as little as can be.
pub proof fn law_closed_repetition_is_cheap(path: PathExpr, limits: Limits)
    requires
        path is ZeroOrMore || path is OneOrMore,
    ensures
        path_size(true, path, true, limits) == 1,
{
}

/// A repeated path with an open end costs at least what the limits say, unless it
/// follows the subclass relation from a bound end.
pub proof fn law_open_repetition_is_expensive(
    start_bound: bool,
    path: PathExpr,
    end_bound: bool,
    limits: Limits,
)
    requires
        path is ZeroOrMore || path is OneOrMore,
        !start_bound || !end_bound,
        start_bound || end_bound ==> !subclass_entry_bound(path, start_bound, end_bound),
    ensures
        path_size(start_bound, path, end_bound, limits) >= if start_bound || end_bound {
            limits.open_transitive_path_min_cost
        } else {
            limits.open_transitive_path_full_scan_cost
        },
{
}

/// A repeated path is evaluated in a loop only where an end of it is bound.
pub proof fn law_repetition_needs_an_end(
    plan: Plan,
    global: Types,
    entry: Types,
    size: nat,
    limits: Limits,
)
    requires
        fits(plan, global, entry, size, limits),
    ensures
        match plan {
            Plan::Path { subject, path, object, .. } => contains_kleene(path) ==> term_bound(
                subject,
                entry,
            ) || term_bound(object, entry),
            _ => true,
        },
{
}

} // verus!
