//! Join reordering: what the reordered plan is, and why the recursion ends.

use vstd::prelude::*;

use crate::algebra::{is_atom, Expr, Plan};
use crate::builders::{
    and_all, distinct, empty_singleton, equal, exists_plan, extend, filter, group, if_cond, join,
    known_truth, lateral, left_join, minus, not, or_all, order_by, project, reduced, same_term,
    slice, union_all,
};
use crate::estimate::{capped_product, keys_factor, plan_penalty, plan_size};
use crate::factors::{join_factors, joined};
use crate::for_loop::{everything_remains, fits};
use crate::greedy::least;
use crate::limits::Limits;
use crate::lookups::{
    entry_size, has_seeded_subclass_lookup, have_common_variable, highly_correlated, join_keys,
};
use crate::measure::{depth, lower, weight};
use crate::normalize::normalize;
use crate::push_filters::push;
use crate::rewrites::{
    distribute_either, distribute_flat, filter_instead_of_either, first_singleton_union,
    guarded_join, has_one_singleton, keyed_join, singleton_others, split_guarded,
    split_off_singleton,
};
use crate::type_inference::{infer, intersect, Types};

verus! {

/// How plans are reordered, where the variables have given types.
pub type Reordering = spec_fn(Plan, Types) -> Plan;

/// The keys by which the first of some joined plans is chosen.
pub open spec fn entry_keys(
    factors: Seq<Plan>,
    remaining: Seq<bool>,
    types: Types,
    limits: Limits,
) -> Seq<Option<(nat, nat)>> {
    Seq::new(
        factors.len(),
        |i: int|
            if remaining[i] {
                Some((plan_size(factors[i], types, limits), plan_penalty(factors[i], types)))
            } else {
                None
            },
    )
}

/// Whether a factor is evaluated once for each row of what is already joined.
pub open spec fn runs_in_loop(
    output: Plan,
    output_types: Types,
    factor: Plan,
    types: Types,
    limits: Limits,
) -> bool {
    fits(factor, types, output_types, entry_size(output, types, limits), limits)
}

/// The cost of joining a factor to what is already joined.
pub open spec fn attach_cost(
    output: Plan,
    output_types: Types,
    factor: Plan,
    types: Types,
    limits: Limits,
) -> nat {
    if runs_in_loop(output, output_types, factor, types, limits) {
        capped_product(
            plan_size(output, types, limits),
            plan_size(factor, output_types, limits),
        )
    } else {
        capped_product(plan_size(output, types, limits), plan_size(factor, types, limits))
            / keys_factor(join_keys(output_types, infer(factor, types), types).len())
    }
}

/// The keys by which the next of some joined plans is chosen: only plans that
/// share a variable with what is already joined are candidates.
pub open spec fn next_keys(
    factors: Seq<Plan>,
    remaining: Seq<bool>,
    output: Plan,
    output_types: Types,
    types: Types,
    limits: Limits,
) -> Seq<Option<(nat, nat)>> {
    Seq::new(
        factors.len(),
        |i: int|
            if remaining[i] && have_common_variable(
                output_types,
                infer(factors[i], types),
                types,
            ) {
                Some(
                    (
                        attach_cost(output, output_types, factors[i], types, limits),
                        plan_penalty(factors[i], output_types),
                    ),
                )
            } else {
                None
            },
    )
}

/// A factor joined to what is already joined.
pub open spec fn attach(
    output: Plan,
    output_types: Types,
    factor: Plan,
    types: Types,
    limits: Limits,
    rec: Reordering,
) -> Plan {
    if runs_in_loop(output, output_types, factor, types, limits) {
        lateral(output, rec(factor, output_types))
    } else {
        join(output, factor, join_keys(output_types, infer(factor, types), types))
    }
}

/// A plan joined with all the remaining factors that it is connected to, the
/// cheapest first; and what remains then.
pub open spec fn grow(
    factors: Seq<Plan>,
    output: Plan,
    output_types: Types,
    remaining: Seq<bool>,
    types: Types,
    limits: Limits,
    rec: Reordering,
    steps: nat,
) -> (Plan, Seq<bool>)
    decreases steps,
{
    if steps == 0 {
        (output, remaining)
    } else {
        match least(next_keys(factors, remaining, output, output_types, types, limits)) {
            Some(i) => grow(
                factors,
                attach(output, output_types, factors[i], types, limits, rec),
                intersect(output_types, infer(factors[i], types)),
                remaining.update(i, false),
                types,
                limits,
                rec,
                (steps - 1) as nat,
            ),
            None => (output, remaining),
        }
    }
}

/// The joins of the remaining factors that are connected to each other.
pub open spec fn components(
    factors: Seq<Plan>,
    remaining: Seq<bool>,
    types: Types,
    limits: Limits,
    rec: Reordering,
    steps: nat,
) -> Seq<Plan>
    decreases steps,
{
    if steps == 0 {
        seq![]
    } else {
        match least(entry_keys(factors, remaining, types, limits)) {
            Some(i) => {
                let (output, rest) = grow(
                    factors,
                    factors[i],
                    infer(factors[i], types),
                    remaining.update(i, false),
                    types,
                    limits,
                    rec,
                    factors.len(),
                );
                seq![output] + components(
                    factors,
                    rest,
                    types,
                    limits,
                    rec,
                    (steps - 1) as nat,
                )
            },
            None => seq![],
        }
    }
}

/// The join of two plans that are not connected, the smaller one first.
pub open spec fn cross(left: Plan, right: Plan, types: Types, limits: Limits) -> Plan {
    let keys = join_keys(infer(left, types), infer(right, types), types);
    if plan_size(left, types, limits) <= plan_size(right, types, limits) {
        join(left, right, keys)
    } else {
        join(right, left, keys)
    }
}

pub open spec fn crossed(outputs: Seq<Plan>, types: Types, limits: Limits) -> Plan
    decreases outputs.len(),
{
    if outputs.len() == 0 {
        empty_singleton()
    } else if outputs.len() == 1 {
        outputs[0]
    } else {
        cross(crossed(outputs.drop_last(), types, limits), outputs.last(), types, limits)
    }
}

/// Some joined plans in a good order.
pub open spec fn greedy_join(
    factors: Seq<Plan>,
    types: Types,
    limits: Limits,
    rec: Reordering,
) -> Plan {
    crossed(
        components(
            factors,
            everything_remains(factors.len()),
            types,
            limits,
            rec,
            factors.len(),
        ),
        types,
        limits,
    )
}

/// Some plans, where an atom that occurs again is dropped.
pub open spec fn deduplicated(plans: Seq<Plan>) -> Seq<Plan>
    decreases plans.len(),
{
    if plans.len() == 0 {
        seq![]
    } else {
        let before = deduplicated(plans.drop_last());
        if is_atom(plans.last()) && before.contains(plans.last()) {
            before
        } else {
            before.push(plans.last())
        }
    }
}

pub open spec fn reorder_each(plans: Seq<Plan>, types: Types, rec: Reordering) -> Seq<Plan> {
    plans.map_values(|plan: Plan| rec(plan, types))
}

pub open spec fn any_seeded(factors: Seq<Plan>, types: Types, limits: Limits) -> bool {
    exists|i: int|
        0 <= i < factors.len() && has_seeded_subclass_lookup(#[trigger] factors[i], types, limits)
}

/// Several joined plans, one of which is a union with one row without values.
pub open spec fn without_singleton(
    factors: Seq<Plan>,
    index: int,
    types: Types,
    limits: Limits,
    rec: Reordering,
) -> Plan {
    let others = singleton_others(factors[index]);
    let base = factors.remove(index);
    let base_join = rec(joined(base), types);
    if others.len() == 0 {
        base_join
    } else {
        match guarded_split(base, base_join, others, types, limits) {
            Some(plan) => plan,
            None => union_all(
                seq![base_join, rec(joined(base.push(union_all(others))), types)],
            ),
        }
    }
}

/// The same where the other plans are better not evaluated twice, if there is
/// a way.
pub open spec fn guarded_split(
    base: Seq<Plan>,
    base_join: Plan,
    others: Seq<Plan>,
    types: Types,
    limits: Limits,
) -> Option<Plan> {
    if has_seeded_subclass_lookup(base_join, types, limits) {
        let first = if any_seeded(base, types, limits) {
            split_guarded(base, others, types, limits)
        } else {
            None
        };
        match first {
            Some(plan) => Some(plan),
            None => split_guarded(join_factors(base_join), others, types, limits),
        }
    } else {
        None
    }
}

/// The join of some plans that are reordered already.
pub open spec fn reorder_factors(
    factors: Seq<Plan>,
    types: Types,
    limits: Limits,
    rec: Reordering,
) -> Plan {
    match distribute_flat(factors, types, limits) {
        Some(plan) => rec(plan, types),
        None => match first_singleton_union(factors) {
            Some(i) if factors.len() > 2 => without_singleton(factors, i, types, limits, rec),
            _ => greedy_join(factors, types, limits, rec),
        },
    }
}

/// The factors of two joined plans, each reordered, without duplicates.
pub open spec fn reordered_factors(
    left: Plan,
    right: Plan,
    types: Types,
    rec: Reordering,
) -> Seq<Plan> {
    deduplicated(reorder_each(join_factors(left) + join_factors(right), types, rec))
}

/// An inner join in a good order.
pub open spec fn reorder_join(
    left: Plan,
    right: Plan,
    types: Types,
    limits: Limits,
    rec: Reordering,
) -> Plan {
    match filter_instead_of_either(left, right, types, limits) {
        Some(plan) => rec(plan, types),
        None => match distribute_either(left, right, types, limits) {
            Some(plan) => rec(plan, types),
            None => {
                let new_left = rec(left, types);
                let new_right = rec(right, types);
                match split_off_singleton(left, right, new_left, new_right, types, limits) {
                    Some(plan) => rec(plan, types),
                    None => match guarded_join(new_left, new_right, types, limits) {
                        Some(plan) => plan,
                        None => reorder_factors(
                            reordered_factors(left, right, types, rec),
                            types,
                            limits,
                            rec,
                        ),
                    },
                }
            },
        },
    }
}

/// A left join of two plans that are reordered already.
pub open spec fn reorder_left_join(
    left: Plan,
    right: Plan,
    expression: Expr,
    types: Types,
    limits: Limits,
) -> Plan {
    let left_types = infer(left, types);
    let right_types = infer(right, types);
    let keys = join_keys(left_types, right_types, types);
    if known_truth(expression) == Some(true) && has_one_singleton(right) {
        let others = singleton_others(right);
        if has_seeded_subclass_lookup(left, types, limits) {
            left_join(left, right, expression, keys)
        } else if others.len() == 0 {
            left
        } else {
            union_all(seq![left, keyed_join(left, union_all(others), types)])
        }
    } else if fits(right, types, left_types, plan_size(left, types, limits), limits)
        && have_common_variable(left_types, right_types, types) {
        lateral(left, left_join(empty_singleton(), right, expression, seq![]))
    } else {
        left_join(left, right, expression, keys)
    }
}

/// An expression where the plans of the EXISTS that depend much on their
/// surroundings are optimized for them.
pub open spec fn reorder_exists(
    expression: Expr,
    types: Types,
    limits: Limits,
    optimized: Reordering,
) -> Expr
    decreases expression,
{
    match expression {
        Expr::NamedNode(_) | Expr::Literal(_) | Expr::Variable(_) | Expr::Bound(_) => expression,
        Expr::Or(inner) => or_all(reorder_all_exists(inner, types, limits, optimized)),
        Expr::And(inner) => and_all(reorder_all_exists(inner, types, limits, optimized)),
        Expr::Equal(left, right) => equal(
            reorder_exists(*left, types, limits, optimized),
            reorder_exists(*right, types, limits, optimized),
        ),
        Expr::SameTerm(left, right) => same_term(
            reorder_exists(*left, types, limits, optimized),
            reorder_exists(*right, types, limits, optimized),
        ),
        Expr::Greater(left, right) => Expr::Greater(
            Box::new(reorder_exists(*left, types, limits, optimized)),
            Box::new(reorder_exists(*right, types, limits, optimized)),
        ),
        Expr::GreaterOrEqual(left, right) => Expr::GreaterOrEqual(
            Box::new(reorder_exists(*left, types, limits, optimized)),
            Box::new(reorder_exists(*right, types, limits, optimized)),
        ),
        Expr::Less(left, right) => Expr::Less(
            Box::new(reorder_exists(*left, types, limits, optimized)),
            Box::new(reorder_exists(*right, types, limits, optimized)),
        ),
        Expr::LessOrEqual(left, right) => Expr::LessOrEqual(
            Box::new(reorder_exists(*left, types, limits, optimized)),
            Box::new(reorder_exists(*right, types, limits, optimized)),
        ),
        Expr::Add(left, right) => Expr::Add(
            Box::new(reorder_exists(*left, types, limits, optimized)),
            Box::new(reorder_exists(*right, types, limits, optimized)),
        ),
        Expr::Subtract(left, right) => Expr::Subtract(
            Box::new(reorder_exists(*left, types, limits, optimized)),
            Box::new(reorder_exists(*right, types, limits, optimized)),
        ),
        Expr::Multiply(left, right) => Expr::Multiply(
            Box::new(reorder_exists(*left, types, limits, optimized)),
            Box::new(reorder_exists(*right, types, limits, optimized)),
        ),
        Expr::Divide(left, right) => Expr::Divide(
            Box::new(reorder_exists(*left, types, limits, optimized)),
            Box::new(reorder_exists(*right, types, limits, optimized)),
        ),
        Expr::UnaryPlus(inner) => Expr::UnaryPlus(
            Box::new(reorder_exists(*inner, types, limits, optimized)),
        ),
        Expr::UnaryMinus(inner) => Expr::UnaryMinus(
            Box::new(reorder_exists(*inner, types, limits, optimized)),
        ),
        Expr::Not(inner) => not(reorder_exists(*inner, types, limits, optimized)),
        Expr::If(condition, then_case, else_case) => if_cond(
            reorder_exists(*condition, types, limits, optimized),
            reorder_exists(*then_case, types, limits, optimized),
            reorder_exists(*else_case, types, limits, optimized),
        ),
        Expr::Coalesce(inner) => Expr::Coalesce(
            reorder_all_exists(inner, types, limits, optimized),
        ),
        Expr::Exists(inner) => exists_plan(
            if highly_correlated(*inner, types, limits) {
                optimized(*inner, types)
            } else {
                *inner
            },
        ),
        Expr::FunctionCall(name, arguments) => Expr::FunctionCall(
            name,
            reorder_all_exists(arguments, types, limits, optimized),
        ),
    }
}

pub open spec fn reorder_all_exists(
    expressions: Seq<Expr>,
    types: Types,
    limits: Limits,
    optimized: Reordering,
) -> Seq<Expr>
    decreases expressions,
{
    Seq::new(
        expressions.len(),
        |i: int|
            if 0 <= i < expressions.len() {
                reorder_exists(expressions[i], types, limits, optimized)
            } else {
                arbitrary()
            },
    )
}

/// Normalization, reordering and moving filters, one after the other.
pub open spec fn optimize_with(rec: Reordering) -> Reordering {
    |plan: Plan, types: Types| push(rec(normalize(plan, types), types), seq![], types)
}

/// A plan whose parts are reordered.
pub open spec fn reorder_step(plan: Plan, types: Types, limits: Limits, rec: Reordering) -> Plan {
    match plan {
        Plan::QuadPattern { .. }
        | Plan::Path { .. }
        | Plan::Values { .. }
        | Plan::Graph { .. }
        | Plan::Service { .. } => plan,
        Plan::Join { left, right, .. } => reorder_join(*left, *right, types, limits, rec),
        Plan::Lateral { left, right } => lateral(
            rec(*left, types),
            rec(*right, infer(*left, types)),
        ),
        Plan::LeftJoin { left, right, expression, .. } => reorder_left_join(
            rec(*left, types),
            rec(*right, types),
            expression,
            types,
            limits,
        ),
        Plan::Minus { left, right, .. } => {
            let new_left = rec(*left, types);
            let new_right = rec(*right, types);
            minus(
                new_left,
                new_right,
                join_keys(infer(new_left, types), infer(new_right, types), types),
            )
        },
        Plan::Extend { inner, variable, expression } => extend(
            rec(*inner, types),
            variable,
            expression,
        ),
        Plan::Filter { inner, expression } => {
            let new_inner = rec(*inner, types);
            filter(
                new_inner,
                reorder_exists(expression, infer(new_inner, types), limits, optimize_with(rec)),
            )
        },
        Plan::Union { inner } => union_all(reorder_each(inner, types, rec)),
        Plan::Slice { inner, start, length } => slice(rec(*inner, types), start, length),
        Plan::Distinct { inner } => distinct(rec(*inner, types)),
        Plan::Reduced { inner } => reduced(rec(*inner, types)),
        Plan::Project { inner, variables } => project(rec(*inner, types), variables),
        Plan::OrderBy { inner, expression } => order_by(rec(*inner, types), expression),
        Plan::Group { inner, variables, aggregates } => group(
            rec(*inner, types),
            variables,
            aggregates,
        ),
    }
}

/// Reordering, of the plans below a given one.
pub open spec fn reorder_below(plan: Plan, limits: Limits) -> Reordering
    decreases depth(plan), weight(plan), 0nat,
{
    |other: Plan, types: Types|
        if lower(other, plan) {
            reorder(other, types, limits)
        } else {
            other
        }
}

/// A plan with its joins in a good order. Every plan that gets reordered on the
/// way is below the given one.
pub open spec fn reorder(plan: Plan, types: Types, limits: Limits) -> Plan
    decreases depth(plan), weight(plan), 1nat,
{
    reorder_step(plan, types, limits, reorder_below(plan, limits))
}

/// An optimized plan.
pub open spec fn optimize(plan: Plan, types: Types, limits: Limits) -> Plan {
    push(reorder(normalize(plan, types), types, limits), seq![], types)
}

/// Optimization, of any plan.
pub open spec fn optimizer(limits: Limits) -> Reordering {
    |plan: Plan, types: Types| optimize(plan, types, limits)
}

} // verus!
