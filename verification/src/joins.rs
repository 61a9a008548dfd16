//! The solutions of joins of several plans.

use vstd::prelude::*;

use crate::algebra::Plan;
use crate::bags::same;
use crate::builders::{empty_singleton, is_empty_singleton};
use crate::factors::{join_factors, joined, joined_onto};
use crate::plan_laws::{lemma_eval_extends, lemma_join, lemma_singleton};
use crate::semantics::{eval, regular, World};
use crate::solutions::{
    all_extend, joined_bags, lemma_join_assoc, lemma_join_commutes, lemma_join_extends,
    lemma_join_same, lemma_join_unit, Solution,
};

verus! {

/// The joined solutions of some plans.
pub open spec fn eval_join(world: World, factors: Seq<Plan>, input: Solution) -> Seq<Solution>
    decreases factors.len(),
{
    if factors.len() == 0 {
        seq![input]
    } else {
        joined_bags(
            eval_join(world, factors.drop_last(), input),
            eval(world, factors.last(), input),
        )
    }
}

pub proof fn lemma_eval_join_extends(world: World, factors: Seq<Plan>, input: Solution)
    requires
        regular(world),
    ensures
        all_extend(eval_join(world, factors, input), input),
    decreases factors.len(),
{
    if factors.len() > 0 {
        lemma_eval_join_extends(world, factors.drop_last(), input);
        lemma_join_extends(
            input,
            eval_join(world, factors.drop_last(), input),
            eval(world, factors.last(), input),
        );
    }
}

pub proof fn lemma_eval_join_one(world: World, plan: Plan, input: Solution)
    requires
        regular(world),
    ensures
        eval_join(world, seq![plan], input) == eval(world, plan, input),
{
    lemma_eval_extends(world, plan, input);
    assert(seq![plan].drop_last() =~= seq![]);
    assert(eval_join(world, Seq::<Plan>::empty(), input) == seq![input]);
    lemma_join_unit(input, eval(world, plan, input));
}

/// Two lists of factors.
pub proof fn lemma_eval_join_concat(
    world: World,
    a: Seq<Plan>,
    b: Seq<Plan>,
    input: Solution,
)
    requires
        regular(world),
    ensures
        same(
            eval_join(world, a + b, input),
            joined_bags(eval_join(world, a, input), eval_join(world, b, input)),
        ),
    decreases b.len(),
{
    let (x, y) = (eval_join(world, a, input), eval_join(world, b, input));
    if b.len() == 0 {
        assert(a + b =~= a);
        lemma_eval_join_extends(world, a, input);
        lemma_join_unit(input, x);
    } else {
        let shorter = b.drop_last();
        let last = eval(world, b.last(), input);
        assert((a + b).drop_last() =~= a + shorter);
        lemma_eval_join_concat(world, a, shorter, input);
        let z = eval_join(world, shorter, input);
        lemma_join_same(eval_join(world, a + shorter, input), last, joined_bags(x, z), last);
        lemma_join_assoc(x, z, last);
    }
}

/// A factor more.
pub proof fn lemma_eval_join_push(world: World, factors: Seq<Plan>, plan: Plan, input: Solution)
    ensures
        eval_join(world, factors.push(plan), input) == joined_bags(
            eval_join(world, factors, input),
            eval(world, plan, input),
        ),
{
    assert(factors.push(plan).drop_last() =~= factors);
}

/// A factor can be joined last.
pub proof fn lemma_eval_join_remove(world: World, factors: Seq<Plan>, i: int, input: Solution)
    requires
        regular(world),
        0 <= i < factors.len(),
    ensures
        same(
            eval_join(world, factors, input),
            joined_bags(
                eval_join(world, factors.remove(i), input),
                eval(world, factors[i], input),
            ),
        ),
    decreases factors.len(),
{
    let n = factors.len() - 1;
    if i == n {
        assert(factors.remove(i) =~= factors.drop_last());
    } else {
        let shorter = factors.drop_last();
        let (x, y) = (eval(world, factors[i], input), eval(world, factors.last(), input));
        lemma_eval_join_remove(world, shorter, i, input);
        let rest = eval_join(world, shorter.remove(i), input);
        assert(factors.remove(i).drop_last() =~= shorter.remove(i));
        assert(factors.remove(i).last() == factors.last());
        lemma_join_same(eval_join(world, shorter, input), y, joined_bags(rest, x), y);
        lemma_join_assoc(rest, x, y);
        lemma_join_commutes(x, y);
        lemma_join_same(rest, joined_bags(x, y), rest, joined_bags(y, x));
        lemma_join_assoc(rest, y, x);
    }
}

/// The plan that is built of some factors has their joined solutions.
pub proof fn lemma_joined(world: World, factors: Seq<Plan>, input: Solution)
    requires
        regular(world),
    ensures
        same(eval(world, joined(factors), input), eval_join(world, factors, input)),
    decreases factors.len(),
{
    if factors.len() == 0 {
        let e = empty_singleton();
        assert(is_empty_singleton(e));
        lemma_singleton(world, e, input);
    } else if factors.len() == 1 {
        assert(factors =~= seq![factors[0]]);
        lemma_eval_join_one(world, factors[0], input);
    } else {
        let shorter = factors.drop_last();
        lemma_joined(world, shorter, input);
        lemma_join(world, joined(shorter), factors.last(), seq![], input);
        let last = eval(world, factors.last(), input);
        lemma_join_same(
            eval(world, joined(shorter), input),
            last,
            eval_join(world, shorter, input),
            last,
        );
    }
}

/// Joining factors onto a plan.
pub proof fn lemma_joined_onto(world: World, plan: Plan, factors: Seq<Plan>, input: Solution)
    requires
        regular(world),
    ensures
        same(
            eval(world, joined_onto(plan, factors), input),
            joined_bags(eval(world, plan, input), eval_join(world, factors, input)),
        ),
    decreases factors.len(),
{
    let x = eval(world, plan, input);
    lemma_eval_extends(world, plan, input);
    if factors.len() == 0 {
        lemma_join_unit(input, x);
    } else {
        let shorter = factors.drop_last();
        let last = eval(world, factors.last(), input);
        lemma_joined_onto(world, plan, shorter, input);
        lemma_join(world, joined_onto(plan, shorter), factors.last(), seq![], input);
        let rest = eval_join(world, shorter, input);
        lemma_join_same(
            eval(world, joined_onto(plan, shorter), input),
            last,
            joined_bags(x, rest),
            last,
        );
        lemma_join_assoc(x, rest, last);
    }
}

/// A nest of joins has the joined solutions of its operands.
pub proof fn lemma_join_factors(world: World, plan: Plan, input: Solution)
    requires
        regular(world),
    ensures
        same(eval(world, plan, input), eval_join(world, join_factors(plan), input)),
    decreases plan,
{
    match plan {
        Plan::Join { left, right, .. } => {
            lemma_join_factors(world, *left, input);
            lemma_join_factors(world, *right, input);
            lemma_eval_join_concat(world, join_factors(*left), join_factors(*right), input);
            lemma_join_same(
                eval(world, *left, input),
                eval(world, *right, input),
                eval_join(world, join_factors(*left), input),
                eval_join(world, join_factors(*right), input),
            );
        },
        _ => {
            lemma_eval_join_one(world, plan, input);
        },
    }
}

} // verus!
