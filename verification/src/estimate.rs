//! How many solutions a pattern is expected to have.

use vstd::prelude::*;

use crate::algebra::{
    plans_view, GraphPattern, JoinAlgorithm, LeftJoinAlgorithm, PathExpr, Plan,
    PropertyPathExpression,
};
use crate::limits::Limits;
use crate::term::{GroundTermPattern, NamedNode, NamedNodePattern, NodePatternView, TermPatternView};
use crate::type_inference::{infer, infer_graph_pattern_types, type_of, Types, VariableTypes};

verus! {

pub const RDFS_SUBCLASS_OF_IRI: &'static str = "http://www.w3.org/2000/01/rdf-schema#subClassOf";

/// The end of a transitive path from which it can be followed cheaply.
#[derive(Debug, Clone, Copy, PartialEq, Eq, Structural)]
pub enum TransitivePathBoundEndpoint {
    Start,
    End,
}

/// Whether a pattern stands for one term once the variables with a value are known.
pub open spec fn term_bound(pattern: TermPatternView, types: Types) -> bool
    decreases pattern,
{
    match pattern {
        TermPatternView::NamedNode(_) | TermPatternView::Literal(_) => true,
        TermPatternView::Variable(variable) => !type_of(types, variable).undef,
        TermPatternView::Triple { subject, predicate, object } => term_bound(*subject, types)
            && node_bound(predicate, types) && term_bound(*object, types),
    }
}

pub open spec fn node_bound(pattern: NodePatternView, types: Types) -> bool {
    match pattern {
        NodePatternView::NamedNode(_) => true,
        NodePatternView::Variable(variable) => !type_of(types, variable).undef,
    }
}

pub open spec fn is_subclass_of(predicate: NodePatternView) -> bool {
    predicate == NodePatternView::NamedNode(RDFS_SUBCLASS_OF_IRI@)
}

/// Whether a path repeats a step any number of times.
pub open spec fn contains_kleene(path: PathExpr) -> bool
    decreases path,
{
    match path {
        PathExpr::NamedNode(_) | PathExpr::NegatedPropertySet(_) => false,
        PathExpr::Reverse(inner) | PathExpr::ZeroOrOne(inner) => contains_kleene(*inner),
        PathExpr::Sequence(left, right) | PathExpr::Alternative(left, right) => contains_kleene(
            *left,
        ) || contains_kleene(*right),
        PathExpr::ZeroOrMore(_) | PathExpr::OneOrMore(_) => true,
    }
}

/// The predicate of a path that is a single step, and whether it is followed
/// from subject to object.
pub open spec fn base_predicate(path: PathExpr) -> Option<(Seq<char>, bool)>
    decreases path,
{
    match path {
        PathExpr::NamedNode(predicate) => Some((predicate, true)),
        PathExpr::Reverse(inner) => match base_predicate(*inner) {
            Some((predicate, forward)) => Some((predicate, !forward)),
            None => None,
        },
        _ => None,
    }
}

/// The end from which a repeated subclass step is followed upwards, if the path
/// is such a path.
pub open spec fn subclass_endpoint(path: PathExpr) -> Option<TransitivePathBoundEndpoint> {
    match path {
        PathExpr::ZeroOrMore(inner) | PathExpr::OneOrMore(inner) => match base_predicate(*inner) {
            Some((predicate, forward)) => if predicate == RDFS_SUBCLASS_OF_IRI@ {
                Some(
                    if forward {
                        TransitivePathBoundEndpoint::Start
                    } else {
                        TransitivePathBoundEndpoint::End
                    },
                )
            } else {
                None
            },
            None => None,
        },
        _ => None,
    }
}

/// Whether a path is a repeated subclass step whose lower end is known.
pub open spec fn subclass_entry_bound(path: PathExpr, start_bound: bool, end_bound: bool) -> bool {
    match subclass_endpoint(path) {
        Some(TransitivePathBoundEndpoint::Start) => start_bound,
        Some(TransitivePathBoundEndpoint::End) => end_bound,
        None => false,
    }
}

pub open spec fn smaller(left: nat, right: nat) -> nat {
    if left <= right {
        left
    } else {
        right
    }
}

pub open spec fn larger(left: nat, right: nat) -> nat {
    if left <= right {
        right
    } else {
        left
    }
}

/// The sum, or the largest number.
pub open spec fn capped_sum(left: nat, right: nat) -> nat {
    smaller(left + right, usize::MAX as nat)
}

/// The product, or the largest number.
pub open spec fn capped_product(left: nat, right: nat) -> nat {
    smaller(left * right, usize::MAX as nat)
}

/// The factor by which that many join keys reduce the size of a join.
pub open spec fn keys_factor(keys: nat) -> nat
    decreases keys,
{
    if keys == 0 {
        1
    } else {
        capped_product(1000, keys_factor((keys - 1) as nat))
    }
}

/// The number of triples that match a pattern.
pub open spec fn triple_size(subject_bound: bool, predicate_bound: bool, object_bound: bool) -> nat {
    match (subject_bound, predicate_bound, object_bound) {
        (true, true, true) => 1,
        (true, true, false) => 10,
        (true, false, true) => 2,
        (false, true, true) => 10_000,
        (true, false, false) => 100,
        (false, false, false) => 1_000_000_000,
        (false, true, false) => 1_000_000,
        (false, false, true) => 100_000,
    }
}

/// The cost of an open transitive path whose step has a given size.
pub open spec fn open_path_size(step: nat, least: usize, limits: Limits) -> nat {
    larger(capped_product(step, limits.open_transitive_path_factor as nat), least as nat)
}

/// The number of pairs that a path connects.
pub open spec fn path_size(
    start_bound: bool,
    path: PathExpr,
    end_bound: bool,
    limits: Limits,
) -> nat
    decreases path,
{
    match path {
        PathExpr::NamedNode(_) => triple_size(start_bound, true, end_bound),
        PathExpr::Reverse(inner) => path_size(end_bound, *inner, start_bound, limits),
        PathExpr::Sequence(left, right) => smaller(
            capped_product(
                path_size(start_bound, *left, false, limits),
                path_size(true, *right, end_bound, limits),
            ),
            capped_product(
                path_size(start_bound, *left, true, limits),
                path_size(false, *right, end_bound, limits),
            ),
        ),
        PathExpr::Alternative(left, right) => capped_sum(
            path_size(start_bound, *left, end_bound, limits),
            path_size(start_bound, *right, end_bound, limits),
        ),
        PathExpr::ZeroOrMore(inner) => {
            let step = path_size(start_bound, *inner, end_bound, limits);
            if start_bound && end_bound {
                1
            } else if start_bound || end_bound {
                if subclass_entry_bound(path, start_bound, end_bound) {
                    step
                } else {
                    open_path_size(step, limits.open_transitive_path_min_cost, limits)
                }
            } else {
                limits.open_transitive_path_full_scan_cost as nat
            }
        },
        PathExpr::OneOrMore(inner) => {
            let step = path_size(start_bound, *inner, end_bound, limits);
            if start_bound && end_bound {
                1
            } else if start_bound || end_bound {
                if subclass_entry_bound(path, start_bound, end_bound) {
                    step
                } else {
                    open_path_size(step, limits.open_transitive_path_min_cost, limits)
                }
            } else {
                open_path_size(step, limits.open_transitive_path_full_scan_cost, limits)
            }
        },
        PathExpr::ZeroOrOne(inner) => if start_bound && end_bound {
            1
        } else if start_bound || end_bound {
            path_size(start_bound, *inner, end_bound, limits)
        } else {
            1_000_000_000
        },
        PathExpr::NegatedPropertySet(_) => triple_size(start_bound, false, end_bound),
    }
}

/// How late a path should be evaluated among patterns of the same size.
pub open spec fn path_penalty(start_bound: bool, path: PathExpr, end_bound: bool) -> nat
    decreases path,
{
    match path {
        PathExpr::NamedNode(_) => 0,
        PathExpr::Reverse(inner) => path_penalty(end_bound, *inner, start_bound),
        PathExpr::Sequence(left, right) => larger(
            path_penalty(start_bound, *left, false),
            path_penalty(true, *right, end_bound),
        ),
        PathExpr::Alternative(left, right) => larger(
            path_penalty(start_bound, *left, end_bound),
            path_penalty(start_bound, *right, end_bound),
        ),
        PathExpr::ZeroOrMore(_) | PathExpr::OneOrMore(_) => if start_bound && end_bound {
            1
        } else if start_bound || end_bound {
            2
        } else {
            3
        },
        PathExpr::ZeroOrOne(inner) => path_penalty(start_bound, *inner, end_bound),
        PathExpr::NegatedPropertySet(_) => 1,
    }
}

/// How late a plan should be evaluated among plans of the same size.
pub open spec fn plan_penalty(plan: Plan, types: Types) -> nat {
    match plan {
        Plan::Path { subject, path, object, .. } => path_penalty(
            term_bound(subject, types),
            path,
            term_bound(object, types),
        ),
        Plan::QuadPattern { .. } | Plan::Values { .. } => 0,
        _ => 1,
    }
}

/// The number of solutions of a plan where the variables have the given types.
pub open spec fn plan_size(plan: Plan, types: Types, limits: Limits) -> nat
    decreases plan,
{
    match plan {
        Plan::Values { bindings, .. } => bindings.len(),
        Plan::QuadPattern { subject, predicate, object, .. } => triple_size(
            term_bound(subject, types),
            node_bound(predicate, types),
            term_bound(object, types),
        ),
        Plan::Path { subject, path, object, .. } => path_size(
            term_bound(subject, types),
            path,
            term_bound(object, types),
            limits,
        ),
        Plan::Graph { graph_name } => if node_bound(graph_name, types) {
            100
        } else {
            1
        },
        Plan::Join { left, right, keys } => capped_product(
            plan_size(*left, types, limits),
            plan_size(*right, types, limits),
        ) / keys_factor(keys.len()),
        Plan::LeftJoin { left, right, keys, .. } => {
            let left_size = plan_size(*left, types, limits);
            larger(
                left_size,
                capped_product(left_size, plan_size(*right, infer(*right, types), limits))
                    / keys_factor(keys.len()),
            )
        },
        Plan::Lateral { left, right } => capped_product(
            plan_size(*left, types, limits),
            plan_size(*right, infer(*left, types), limits),
        ),
        Plan::Union { inner } => plans_size(inner, types, limits),
        Plan::Minus { left, .. } => plan_size(*left, types, limits),
        Plan::Filter { inner, .. }
        | Plan::Extend { inner, .. }
        | Plan::OrderBy { inner, .. }
        | Plan::Project { inner, .. }
        | Plan::Distinct { inner }
        | Plan::Reduced { inner }
        | Plan::Group { inner, .. } => plan_size(*inner, types, limits),
        Plan::Service { name, inner, .. } => if node_bound(name, types) {
            plan_size(*inner, types, limits)
        } else {
            1_000_000_000
        },
        Plan::Slice { inner, start, length } => {
            let size = plan_size(*inner, types, limits);
            match length {
                Some(length) if length >= start => smaller(size, (length - start) as nat),
                _ => size,
            }
        },
    }
}

pub open spec fn plans_size(plans: Seq<Plan>, types: Types, limits: Limits) -> nat
    decreases plans,
{
    if plans.len() == 0 {
        0
    } else {
        capped_sum(
            plans_size(plans.drop_last(), types, limits),
            plan_size(plans[plans.len() - 1], types, limits),
        )
    }
}

fn smaller_of(left: usize, right: usize) -> (r: usize)
    ensures
        r == smaller(left as nat, right as nat),
{
    if left <= right {
        left
    } else {
        right
    }
}

fn larger_of(left: usize, right: usize) -> (r: usize)
    ensures
        r == larger(left as nat, right as nat),
{
    if left <= right {
        right
    } else {
        left
    }
}

fn saturating_product(left: usize, right: usize) -> (r: usize)
    ensures
        r == capped_product(left as nat, right as nat),
{
    match left.checked_mul(right) {
        Some(product) => product,
        None => usize::MAX,
    }
}

fn saturating_sum(left: usize, right: usize) -> (r: usize)
    ensures
        r == capped_sum(left as nat, right as nat),
{
    left.saturating_add(right)
}

fn join_keys_factor(keys: usize) -> (r: usize)
    ensures
        r == keys_factor(keys as nat),
        r > 0,
{
    let mut factor: usize = 1;
    for i in 0..keys
        invariant
            factor == keys_factor(i as nat),
            factor > 0,
    {
        proof {
            assert(1000 * factor > 0) by (nonlinear_arith)
                requires
                    factor > 0,
            ;
        }
        factor = saturating_product(1000, factor);
    }
    factor
}

/// Whether a pattern stands for one term once the variables with a value are known.
pub fn is_term_pattern_bound(pattern: &GroundTermPattern, input_types: &VariableTypes) -> (r: bool)
    ensures
        r == term_bound(pattern@, input_types@),
    decreases pattern,
{
    match pattern {
        GroundTermPattern::NamedNode(_) | GroundTermPattern::Literal(_) => true,
        GroundTermPattern::Variable(variable) => !input_types.get(variable).undef,
        GroundTermPattern::Triple(triple) => is_term_pattern_bound(&triple.subject, input_types)
            && is_named_node_pattern_bound(&triple.predicate, input_types) && is_term_pattern_bound(
            &triple.object,
            input_types,
        ),
    }
}

/// Whether a pattern stands for one IRI once the variables with a value are known.
pub fn is_named_node_pattern_bound(
    pattern: &NamedNodePattern,
    input_types: &VariableTypes,
) -> (r: bool)
    ensures
        r == node_bound(pattern@, input_types@),
{
    match pattern {
        NamedNodePattern::NamedNode(_) => true,
        NamedNodePattern::Variable(variable) => !input_types.get(variable).undef,
    }
}

/// Whether a predicate is `rdfs:subClassOf`.
pub fn is_rdfs_subclass_of_predicate(predicate: &NamedNodePattern) -> (r: bool)
    ensures
        r == is_subclass_of(predicate@),
{
    match predicate {
        NamedNodePattern::NamedNode(node) => node.iri == RDFS_SUBCLASS_OF_IRI.to_owned(),
        NamedNodePattern::Variable(_) => false,
    }
}

/// Whether a path repeats a step any number of times.
pub fn contains_kleene_transitive_path(path: &PropertyPathExpression) -> (r: bool)
    ensures
        r == contains_kleene(path@),
    decreases path,
{
    match path {
        PropertyPathExpression::NamedNode(_) | PropertyPathExpression::NegatedPropertySet(_) => {
            false
        },
        PropertyPathExpression::Reverse(inner) | PropertyPathExpression::ZeroOrOne(inner) => {
            contains_kleene_transitive_path(inner)
        },
        PropertyPathExpression::Sequence(left, right) | PropertyPathExpression::Alternative(
            left,
            right,
        ) => contains_kleene_transitive_path(left) || contains_kleene_transitive_path(right),
        PropertyPathExpression::ZeroOrMore(_) | PropertyPathExpression::OneOrMore(_) => true,
    }
}

/// The predicate of a path that is a single step, and whether it is followed
/// from subject to object.
pub fn transitive_path_base_predicate(path: &PropertyPathExpression) -> (r: Option<
    (&NamedNode, bool),
>)
    ensures
        base_predicate(path@) == match r {
            Some((predicate, forward)) => Some((predicate@, forward)),
            None => None,
        },
    decreases path,
{
    match path {
        PropertyPathExpression::NamedNode(predicate) => Some((predicate, true)),
        PropertyPathExpression::Reverse(inner) => match transitive_path_base_predicate(inner) {
            Some((predicate, forward)) => Some((predicate, !forward)),
            None => None,
        },
        _ => None,
    }
}

/// The end from which a repeated subclass step is followed upwards, if the path
/// is such a path.
pub fn rdfs_subclass_of_kleene_transitive_path_bound_endpoint(
    path: &PropertyPathExpression,
) -> (r: Option<TransitivePathBoundEndpoint>)
    ensures
        r == subclass_endpoint(path@),
{
    match path {
        PropertyPathExpression::ZeroOrMore(inner) | PropertyPathExpression::OneOrMore(inner) => {
            match transitive_path_base_predicate(inner) {
                Some((predicate, forward)) => {
                    if predicate.iri == RDFS_SUBCLASS_OF_IRI.to_owned() {
                        if forward {
                            Some(TransitivePathBoundEndpoint::Start)
                        } else {
                            Some(TransitivePathBoundEndpoint::End)
                        }
                    } else {
                        None
                    }
                },
                None => None,
            }
        },
        _ => None,
    }
}

/// Whether a path is a repeated subclass step whose lower end is known.
pub fn is_entry_bound_for_rdfs_subclass_of_kleene_transitive_path(
    path: &PropertyPathExpression,
    entry_start_bound: bool,
    entry_end_bound: bool,
) -> (r: bool)
    ensures
        r == subclass_entry_bound(path@, entry_start_bound, entry_end_bound),
{
    match rdfs_subclass_of_kleene_transitive_path_bound_endpoint(path) {
        Some(TransitivePathBoundEndpoint::Start) => entry_start_bound,
        Some(TransitivePathBoundEndpoint::End) => entry_end_bound,
        None => false,
    }
}

/// The number of triples that match a pattern.
pub fn estimate_triple_pattern_size(
    subject_bound: bool,
    predicate_bound: bool,
    object_bound: bool,
) -> (r: usize)
    ensures
        r == triple_size(subject_bound, predicate_bound, object_bound),
{
    match (subject_bound, predicate_bound, object_bound) {
        (true, true, true) => 1,
        (true, true, false) => 10,
        (true, false, true) => 2,
        (false, true, true) => 10_000,
        (true, false, false) => 100,
        (false, false, false) => 1_000_000_000,
        (false, true, false) => 1_000_000,
        (false, false, true) => 100_000,
    }
}

fn estimate_open_path_size(step: usize, least: usize, limits: &Limits) -> (r: usize)
    ensures
        r == open_path_size(step as nat, least, *limits),
{
    larger_of(saturating_product(step, limits.open_transitive_path_factor), least)
}

/// The number of pairs that a path connects.
pub fn estimate_path_size(
    start_bound: bool,
    path: &PropertyPathExpression,
    end_bound: bool,
    limits: &Limits,
) -> (r: usize)
    ensures
        r == path_size(start_bound, path@, end_bound, *limits),
    decreases path,
{
    match path {
        PropertyPathExpression::NamedNode(_) => {
            estimate_triple_pattern_size(start_bound, true, end_bound)
        },
        PropertyPathExpression::Reverse(inner) => {
            estimate_path_size(end_bound, inner, start_bound, limits)
        },
        PropertyPathExpression::Sequence(left, right) => {
            // A for loop join in the better direction.
            let forward = saturating_product(
                estimate_path_size(start_bound, left, false, limits),
                estimate_path_size(true, right, end_bound, limits),
            );
            let backward = saturating_product(
                estimate_path_size(start_bound, left, true, limits),
                estimate_path_size(false, right, end_bound, limits),
            );
            smaller_of(forward, backward)
        },
        PropertyPathExpression::Alternative(left, right) => saturating_sum(
            estimate_path_size(start_bound, left, end_bound, limits),
            estimate_path_size(start_bound, right, end_bound, limits),
        ),
        PropertyPathExpression::ZeroOrMore(inner) => {
            if start_bound && end_bound {
                1
            } else if start_bound || end_bound {
                let step = estimate_path_size(start_bound, inner, end_bound, limits);
                if is_entry_bound_for_rdfs_subclass_of_kleene_transitive_path(
                    path,
                    start_bound,
                    end_bound,
                ) {
                    step
                } else {
                    estimate_open_path_size(step, limits.open_transitive_path_min_cost, limits)
                }
            } else {
                limits.open_transitive_path_full_scan_cost
            }
        },
        PropertyPathExpression::OneOrMore(inner) => {
            if start_bound && end_bound {
                1
            } else if start_bound || end_bound {
                let step = estimate_path_size(start_bound, inner, end_bound, limits);
                if is_entry_bound_for_rdfs_subclass_of_kleene_transitive_path(
                    path,
                    start_bound,
                    end_bound,
                ) {
                    step
                } else {
                    estimate_open_path_size(step, limits.open_transitive_path_min_cost, limits)
                }
            } else {
                let step = estimate_path_size(start_bound, inner, end_bound, limits);
                estimate_open_path_size(step, limits.open_transitive_path_full_scan_cost, limits)
            }
        },
        PropertyPathExpression::ZeroOrOne(inner) => {
            if start_bound && end_bound {
                1
            } else if start_bound || end_bound {
                estimate_path_size(start_bound, inner, end_bound, limits)
            } else {
                1_000_000_000
            }
        },
        PropertyPathExpression::NegatedPropertySet(_) => {
            estimate_triple_pattern_size(start_bound, false, end_bound)
        },
    }
}

/// How late a path should be evaluated among patterns of the same size.
pub fn path_reordering_penalty(
    start_bound: bool,
    path: &PropertyPathExpression,
    end_bound: bool,
) -> (r: usize)
    ensures
        r == path_penalty(start_bound, path@, end_bound),
    decreases path,
{
    match path {
        PropertyPathExpression::NamedNode(_) => 0,
        PropertyPathExpression::Reverse(inner) => {
            path_reordering_penalty(end_bound, inner, start_bound)
        },
        PropertyPathExpression::Sequence(left, right) => larger_of(
            path_reordering_penalty(start_bound, left, false),
            path_reordering_penalty(true, right, end_bound),
        ),
        PropertyPathExpression::Alternative(left, right) => larger_of(
            path_reordering_penalty(start_bound, left, end_bound),
            path_reordering_penalty(start_bound, right, end_bound),
        ),
        PropertyPathExpression::ZeroOrMore(_) | PropertyPathExpression::OneOrMore(_) => {
            if start_bound && end_bound {
                1
            } else if start_bound || end_bound {
                2
            } else {
                3
            }
        },
        PropertyPathExpression::ZeroOrOne(inner) => {
            path_reordering_penalty(start_bound, inner, end_bound)
        },
        PropertyPathExpression::NegatedPropertySet(_) => 1,
    }
}

/// How late a pattern should be evaluated among patterns of the same size.
pub fn graph_pattern_reordering_penalty(
    pattern: &GraphPattern,
    input_types: &VariableTypes,
) -> (r: usize)
    ensures
        r == plan_penalty(pattern@, input_types@),
{
    match pattern {
        GraphPattern::Path { subject, path, object, .. } => path_reordering_penalty(
            is_term_pattern_bound(subject, input_types),
            path,
            is_term_pattern_bound(object, input_types),
        ),
        GraphPattern::QuadPattern { .. } | GraphPattern::Values { .. } => 0,
        _ => 1,
    }
}

/// The size of an inner join.
pub fn estimate_join_cost(
    left: &GraphPattern,
    right: &GraphPattern,
    algorithm: &JoinAlgorithm,
    input_types: &VariableTypes,
    limits: &Limits,
) -> (r: usize)
    ensures
        r == capped_product(
            plan_size(left@, input_types@, *limits),
            plan_size(right@, input_types@, *limits),
        ) / keys_factor(algorithm@.len()),
{
    let JoinAlgorithm::HashBuildLeftProbeRight { keys } = algorithm;
    saturating_product(
        estimate_graph_pattern_size(left, input_types, limits),
        estimate_graph_pattern_size(right, input_types, limits),
    ) / join_keys_factor(keys.len())
}

/// The size of a lateral join.
pub fn estimate_lateral_cost(
    left: &GraphPattern,
    left_types: &VariableTypes,
    right: &GraphPattern,
    input_types: &VariableTypes,
    limits: &Limits,
) -> (r: usize)
    ensures
        r == capped_product(
            plan_size(left@, input_types@, *limits),
            plan_size(right@, left_types@, *limits),
        ),
{
    saturating_product(
        estimate_graph_pattern_size(left, input_types, limits),
        estimate_graph_pattern_size(right, left_types, limits),
    )
}

fn estimate_union_size(
    patterns: &Vec<GraphPattern>,
    input_types: &VariableTypes,
    limits: &Limits,
) -> (r: usize)
    ensures
        r == plans_size(plans_view(patterns@), input_types@, *limits),
    decreases patterns,
{
    let ghost given = plans_view(patterns@);
    let mut size: usize = 0;
    for i in 0..patterns.len()
        invariant
            given == plans_view(patterns@),
            size == plans_size(given.take(i as int), input_types@, *limits),
    {
        proof {
            assert(given[i as int] == patterns@[i as int]@);
            assert(given.take(i + 1).drop_last() =~= given.take(i as int));
        }
        size = saturating_sum(size, estimate_graph_pattern_size(&patterns[i], input_types, limits));
    }
    assert(given.take(given.len() as int) =~= given);
    size
}

/// The number of solutions of a pattern where the variables have the given types.
pub fn estimate_graph_pattern_size(
    pattern: &GraphPattern,
    input_types: &VariableTypes,
    limits: &Limits,
) -> (r: usize)
    ensures
        r == plan_size(pattern@, input_types@, *limits),
    decreases pattern,
{
    match pattern {
        GraphPattern::Values { bindings, .. } => bindings.len(),
        GraphPattern::QuadPattern { subject, predicate, object, .. } => {
            estimate_triple_pattern_size(
                is_term_pattern_bound(subject, input_types),
                is_named_node_pattern_bound(predicate, input_types),
                is_term_pattern_bound(object, input_types),
            )
        },
        GraphPattern::Path { subject, path, object, .. } => estimate_path_size(
            is_term_pattern_bound(subject, input_types),
            path,
            is_term_pattern_bound(object, input_types),
            limits,
        ),
        GraphPattern::Graph { graph_name } => {
            if is_named_node_pattern_bound(graph_name, input_types) {
                100
            } else {
                1
            }
        },
        GraphPattern::Join { left, right, algorithm } => {
            let JoinAlgorithm::HashBuildLeftProbeRight { keys } = algorithm;
            let left_size = estimate_graph_pattern_size(left, input_types, limits);
            let right_size = estimate_graph_pattern_size(right, input_types, limits);
            saturating_product(left_size, right_size) / join_keys_factor(keys.len())
        },
        GraphPattern::LeftJoin { left, right, algorithm, .. } => {
            let LeftJoinAlgorithm::HashBuildRightProbeLeft { keys } = algorithm;
            let left_size = estimate_graph_pattern_size(left, input_types, limits);
            let right_types = infer_graph_pattern_types(right, input_types.clone());
            let right_size = estimate_graph_pattern_size(right, &right_types, limits);
            larger_of(
                left_size,
                saturating_product(left_size, right_size) / join_keys_factor(keys.len()),
            )
        },
        GraphPattern::Lateral { left, right } => {
            let left_types = infer_graph_pattern_types(left, input_types.clone());
            let left_size = estimate_graph_pattern_size(left, input_types, limits);
            let right_size = estimate_graph_pattern_size(right, &left_types, limits);
            saturating_product(left_size, right_size)
        },
        GraphPattern::Union { inner } => estimate_union_size(inner, input_types, limits),
        GraphPattern::Minus { left, .. } => estimate_graph_pattern_size(left, input_types, limits),
        GraphPattern::Filter { inner, .. }
        | GraphPattern::Extend { inner, .. }
        | GraphPattern::OrderBy { inner, .. }
        | GraphPattern::Project { inner, .. }
        | GraphPattern::Distinct { inner }
        | GraphPattern::Reduced { inner }
        | GraphPattern::Group { inner, .. } => estimate_graph_pattern_size(
            inner,
            input_types,
            limits,
        ),
        GraphPattern::Service { name, inner, .. } => {
            if is_named_node_pattern_bound(name, input_types) {
                estimate_graph_pattern_size(inner, input_types, limits)
            } else {
                // A remote call should not be planned before its endpoint is known.
                1_000_000_000
            }
        },
        GraphPattern::Slice { inner, start, length } => {
            let size = estimate_graph_pattern_size(inner, input_types, limits);
            match length {
                Some(length) => {
                    if *length >= *start {
                        smaller_of(size, *length - *start)
                    } else {
                        size
                    }
                },
                None => size,
            }
        },
    }
}

} // verus!
