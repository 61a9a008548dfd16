//! Plans that the optimizer must produce, and the estimates behind them.

use sparopt::estimate::{estimate_triple_pattern_size, RDFS_SUBCLASS_OF_IRI};
use sparopt::factors::split_singleton_union_branches;
use sparopt::limits::{
    subclass_for_loop_max_left_size, subclass_transitive_lateral_max_left_size,
    transitive_lateral_max_left_size, Limits,
};
use sparopt::type_inference::{infer_graph_pattern_types, VariableTypes};
use sparopt::{
    Expression, GraphPattern, JoinAlgorithm, LeftJoinAlgorithm, Literal, NamedNode, Optimizer,
    PropertyPathExpression, Variable,
};

fn estimate_path_size(start_bound: bool, path: &PropertyPathExpression, end_bound: bool) -> usize {
    sparopt::estimate::estimate_path_size(start_bound, path, end_bound, &Limits::default())
}

fn estimate_graph_pattern_size(pattern: &GraphPattern, input_types: &VariableTypes) -> usize {
    sparopt::estimate::estimate_graph_pattern_size(pattern, input_types, &Limits::default())
}

fn is_fit_for_for_loop_join(
    pattern: &GraphPattern,
    global_input_types: &VariableTypes,
    entry_types: &VariableTypes,
    entry_estimated_size: usize,
) -> bool {
    sparopt::for_loop::is_fit_for_for_loop_join(
        pattern,
        global_input_types,
        entry_types,
        entry_estimated_size,
        &Limits::default(),
    )
}

fn should_avoid_singleton_union_duplication(
    pattern: &GraphPattern,
    input_types: &VariableTypes,
) -> bool {
    sparopt::lookups::should_avoid_singleton_union_duplication(
        pattern,
        input_types,
        &Limits::default(),
    )
}

fn transitive_subclass_path_star() -> PropertyPathExpression {
    PropertyPathExpression::ZeroOrMore(Box::new(PropertyPathExpression::NamedNode(
        NamedNode::new_unchecked("http://www.w3.org/2000/01/rdf-schema#subClassOf"),
    )))
}

fn transitive_subclass_path_plus() -> PropertyPathExpression {
    PropertyPathExpression::OneOrMore(Box::new(PropertyPathExpression::NamedNode(
        NamedNode::new_unchecked("http://www.w3.org/2000/01/rdf-schema#subClassOf"),
    )))
}

fn reverse_transitive_subclass_path_plus() -> PropertyPathExpression {
    PropertyPathExpression::OneOrMore(Box::new(PropertyPathExpression::Reverse(Box::new(
        PropertyPathExpression::NamedNode(NamedNode::new_unchecked(RDFS_SUBCLASS_OF_IRI)),
    ))))
}

#[test]
fn generic_open_transitive_path_cost_is_strongly_penalized() {
    let star = PropertyPathExpression::ZeroOrMore(Box::new(PropertyPathExpression::NamedNode(
        NamedNode::new_unchecked("http://example.com/p"),
    )));
    let plus = PropertyPathExpression::OneOrMore(Box::new(PropertyPathExpression::NamedNode(
        NamedNode::new_unchecked("http://example.com/p"),
    )));
    let baseline_selective_triple = estimate_triple_pattern_size(false, true, true);
    assert!(
        estimate_path_size(true, &star, false) > baseline_selective_triple,
        "p* with one bound endpoint should be costlier than a selective triple pattern"
    );
    assert!(
        estimate_path_size(false, &plus, true) > baseline_selective_triple,
        "p+ with one bound endpoint should be costlier than a selective triple pattern"
    );
}

#[test]
fn anchored_subclass_transitive_path_cost_stays_near_selective_triple() {
    let star = transitive_subclass_path_star();
    let plus = transitive_subclass_path_plus();
    let anchored_subclass_triple = estimate_triple_pattern_size(true, true, false);

    assert_eq!(
        estimate_path_size(true, &star, false),
        anchored_subclass_triple
    );
    assert_eq!(
        estimate_path_size(true, &plus, false),
        anchored_subclass_triple
    );
    assert_eq!(
        estimate_path_size(false, &reverse_transitive_subclass_path_plus(), true),
        anchored_subclass_triple
    );
}

#[test]
fn unanchored_direction_subclass_transitive_path_keeps_open_path_penalty() {
    let star = transitive_subclass_path_star();
    let plus = transitive_subclass_path_plus();
    let baseline_selective_triple = estimate_triple_pattern_size(false, true, true);

    assert!(
        estimate_path_size(false, &star, true) > baseline_selective_triple,
        "forward subclass traversal with only the end bound should keep the generic open-path penalty",
    );
    assert!(
        estimate_path_size(false, &plus, true) > baseline_selective_triple,
        "forward subclass traversal with only the end bound should keep the generic open-path penalty",
    );
}

#[test]
fn closed_transitive_path_cost_stays_small() {
    let star = transitive_subclass_path_star();
    let plus = transitive_subclass_path_plus();
    assert_eq!(estimate_path_size(true, &star, true), 1);
    assert_eq!(estimate_path_size(true, &plus, true), 1);
}

#[test]
fn bounded_transitive_path_can_use_for_loop_when_entry_is_small() {
    let transitive_path = GraphPattern::Path {
        subject: Variable::new_unchecked("s").into(),
        path: PropertyPathExpression::OneOrMore(Box::new(PropertyPathExpression::NamedNode(
            NamedNode::new_unchecked("http://example.com/p"),
        ))),
        object: Variable::new_unchecked("o").into(),
        graph_name: None,
    };
    let entry_seed = GraphPattern::QuadPattern {
        subject: Variable::new_unchecked("s").into(),
        predicate: NamedNode::new_unchecked("http://example.com/p").into(),
        object: NamedNode::new_unchecked("http://example.com/o").into(),
        graph_name: None,
    };
    let global_types = VariableTypes::default();
    let entry_types = infer_graph_pattern_types(&entry_seed, VariableTypes::default());

    assert!(
        is_fit_for_for_loop_join(&transitive_path, &global_types, &entry_types, 1),
        "bounded transitive path should allow for-loop join for tiny left inputs",
    );
    assert!(
        !is_fit_for_for_loop_join(
            &transitive_path,
            &global_types,
            &entry_types,
            transitive_lateral_max_left_size(None).saturating_add(1),
        ),
        "bounded transitive path should not use for-loop join once left input grows too much",
    );
}

#[test]
fn subclass_transitive_path_can_use_attack_id_sized_anchor() {
    let transitive_path = GraphPattern::Path {
        subject: Variable::new_unchecked("s").into(),
        path: transitive_subclass_path_plus(),
        object: Variable::new_unchecked("o").into(),
        graph_name: None,
    };
    let entry_seed = GraphPattern::QuadPattern {
        subject: Variable::new_unchecked("s").into(),
        predicate: NamedNode::new_unchecked("http://example.com/attack-id").into(),
        object: Literal::new_simple_literal("T1546").into(),
        graph_name: None,
    };
    let global_types = VariableTypes::default();
    let entry_types = infer_graph_pattern_types(&entry_seed, VariableTypes::default());
    let entry_estimated_size = estimate_graph_pattern_size(&entry_seed, &global_types);

    assert_eq!(
        entry_estimated_size,
        estimate_triple_pattern_size(false, true, true),
        "attack-id style anchors should keep the object-bound triple estimate used by the planner",
    );
    assert!(
        is_fit_for_for_loop_join(
            &transitive_path,
            &global_types,
            &entry_types,
            entry_estimated_size,
        ),
        "transitive rdfs:subClassOf paths should stay lateralizable for attack-id sized anchors",
    );
    assert!(
        !is_fit_for_for_loop_join(
            &transitive_path,
            &global_types,
            &entry_types,
            subclass_transitive_lateral_max_left_size(None).saturating_add(1),
        ),
        "subclass transitive paths should still stop lateralizing above the dedicated threshold",
    );
}

#[test]
fn generic_transitive_path_stays_blocked_for_attack_id_sized_anchor() {
    let transitive_path = GraphPattern::Path {
        subject: Variable::new_unchecked("s").into(),
        path: PropertyPathExpression::OneOrMore(Box::new(PropertyPathExpression::NamedNode(
            NamedNode::new_unchecked("http://example.com/p"),
        ))),
        object: Variable::new_unchecked("o").into(),
        graph_name: None,
    };
    let entry_seed = GraphPattern::QuadPattern {
        subject: Variable::new_unchecked("s").into(),
        predicate: NamedNode::new_unchecked("http://example.com/attack-id").into(),
        object: Literal::new_simple_literal("T1546").into(),
        graph_name: None,
    };
    let entry_types = infer_graph_pattern_types(&entry_seed, VariableTypes::default());
    let entry_estimated_size =
        estimate_graph_pattern_size(&entry_seed, &VariableTypes::default());

    assert!(
        !is_fit_for_for_loop_join(
            &transitive_path,
            &VariableTypes::default(),
            &entry_types,
            entry_estimated_size,
        ),
        "the broader subclass threshold must not make arbitrary transitive predicates lateralizable",
    );
}

#[test]
fn forward_subclass_transitive_path_stays_blocked_when_only_end_is_entry_bound() {
    let transitive_path = GraphPattern::Path {
        subject: Variable::new_unchecked("s").into(),
        path: transitive_subclass_path_plus(),
        object: Variable::new_unchecked("o").into(),
        graph_name: None,
    };
    let entry_seed = GraphPattern::QuadPattern {
        subject: Variable::new_unchecked("o").into(),
        predicate: NamedNode::new_unchecked("http://example.com/attack-id").into(),
        object: Literal::new_simple_literal("T1546").into(),
        graph_name: None,
    };
    let entry_types = infer_graph_pattern_types(&entry_seed, VariableTypes::default());
    let entry_estimated_size =
        estimate_graph_pattern_size(&entry_seed, &VariableTypes::default());

    assert!(
        !is_fit_for_for_loop_join(
            &transitive_path,
            &VariableTypes::default(),
            &entry_types,
            entry_estimated_size,
        ),
        "forward rdfs:subClassOf traversal should not relax the threshold when only the path end is entry-bound",
    );
}

#[test]
fn reverse_subclass_transitive_path_can_use_attack_id_sized_anchor() {
    let transitive_path = GraphPattern::Path {
        subject: Variable::new_unchecked("s").into(),
        path: reverse_transitive_subclass_path_plus(),
        object: Variable::new_unchecked("o").into(),
        graph_name: None,
    };
    let entry_seed = GraphPattern::QuadPattern {
        subject: Variable::new_unchecked("o").into(),
        predicate: NamedNode::new_unchecked("http://example.com/attack-id").into(),
        object: Literal::new_simple_literal("T1546").into(),
        graph_name: None,
    };
    let global_types = VariableTypes::default();
    let entry_types = infer_graph_pattern_types(&entry_seed, VariableTypes::default());
    let entry_estimated_size = estimate_graph_pattern_size(&entry_seed, &global_types);

    assert!(
        is_fit_for_for_loop_join(
            &transitive_path,
            &global_types,
            &entry_types,
            entry_estimated_size,
        ),
        "reverse rdfs:subClassOf traversal should relax the threshold when the path end is entry-bound",
    );
}

#[test]
fn reverse_subclass_transitive_path_stays_blocked_when_only_start_is_entry_bound() {
    let transitive_path = GraphPattern::Path {
        subject: Variable::new_unchecked("s").into(),
        path: reverse_transitive_subclass_path_plus(),
        object: Variable::new_unchecked("o").into(),
        graph_name: None,
    };
    let entry_seed = GraphPattern::QuadPattern {
        subject: Variable::new_unchecked("s").into(),
        predicate: NamedNode::new_unchecked("http://example.com/attack-id").into(),
        object: Literal::new_simple_literal("T1546").into(),
        graph_name: None,
    };
    let entry_types = infer_graph_pattern_types(&entry_seed, VariableTypes::default());
    let entry_estimated_size =
        estimate_graph_pattern_size(&entry_seed, &VariableTypes::default());

    assert!(
        !is_fit_for_for_loop_join(
            &transitive_path,
            &VariableTypes::default(),
            &entry_types,
            entry_estimated_size,
        ),
        "reverse rdfs:subClassOf traversal should not relax the threshold when only the path start is entry-bound",
    );
}

#[test]
fn join_branch_can_use_for_loop_when_entry_and_internal_factors_bind_in_sequence() {
    let off_tech = Variable::new_unchecked("off_tech");
    let top_level = Variable::new_unchecked("_off_top_level");
    let parent = Variable::new_unchecked("parent");
    let branch = GraphPattern::join(
        GraphPattern::join(
            GraphPattern::QuadPattern {
                subject: parent.clone().into(),
                predicate: NamedNode::new_unchecked("http://example.com/rel").into(),
                object: Variable::new_unchecked("off_artifact").into(),
                graph_name: None,
            },
            GraphPattern::Path {
                subject: parent.clone().into(),
                path: transitive_subclass_path_plus(),
                object: top_level.clone().into(),
                graph_name: None,
            },
            JoinAlgorithm::HashBuildLeftProbeRight {
                keys: vec![parent.clone()],
            },
        ),
        GraphPattern::Path {
            subject: off_tech.clone().into(),
            path: transitive_subclass_path_plus(),
            object: parent.into(),
            graph_name: None,
        },
        JoinAlgorithm::HashBuildLeftProbeRight {
            keys: vec![Variable::new_unchecked("parent")],
        },
    );
    let entry_seed = GraphPattern::extend(
        GraphPattern::extend(
            GraphPattern::empty_singleton(),
            off_tech,
            NamedNode::new_unchecked("http://example.com/off-tech").into(),
        ),
        top_level,
        NamedNode::new_unchecked("http://example.com/top-level").into(),
    );
    let global_types = VariableTypes::default();
    let entry_types = infer_graph_pattern_types(&entry_seed, global_types.clone());

    assert!(
        is_fit_for_for_loop_join(
            &branch,
            &global_types,
            &entry_types,
            estimate_graph_pattern_size(&entry_seed, &global_types),
        ),
        "join branches should be lateralizable when entry bindings plus earlier factors can bind each transitive path in sequence",
    );
}

#[test]
fn transitive_path_requires_endpoint_binding_from_entry() {
    let transitive_path = GraphPattern::Path {
        subject: Variable::new_unchecked("s").into(),
        path: transitive_subclass_path_plus(),
        object: Variable::new_unchecked("o").into(),
        graph_name: None,
    };
    let binding_seed = GraphPattern::QuadPattern {
        subject: Variable::new_unchecked("s").into(),
        predicate: NamedNode::new_unchecked("http://example.com/p").into(),
        object: NamedNode::new_unchecked("http://example.com/o").into(),
        graph_name: None,
    };
    let already_bound_types =
        infer_graph_pattern_types(&binding_seed, VariableTypes::default());

    assert!(
        !is_fit_for_for_loop_join(
            &transitive_path,
            &VariableTypes::default(),
            &VariableTypes::default(),
            1,
        ),
        "for-loop join should stay disabled when the entry side does not bind any path endpoint",
    );
    assert!(
        is_fit_for_for_loop_join(
            &transitive_path,
            &already_bound_types,
            &already_bound_types,
            1
        ),
        "for-loop join is allowed when the entry side binds at least one endpoint",
    );
}

#[test]
fn quad_for_loop_allows_small_unbound_quad() {
    let quad = GraphPattern::QuadPattern {
        subject: Variable::new_unchecked("s").into(),
        predicate: NamedNode::new_unchecked("http://example.com/p").into(),
        object: Variable::new_unchecked("o").into(),
        graph_name: None,
    };
    let entry_seed = GraphPattern::QuadPattern {
        subject: Variable::new_unchecked("s").into(),
        predicate: NamedNode::new_unchecked("http://example.com/bind").into(),
        object: NamedNode::new_unchecked("http://example.com/object").into(),
        graph_name: None,
    };
    let entry_types = infer_graph_pattern_types(&entry_seed, VariableTypes::default());

    assert!(
        is_fit_for_for_loop_join(
            &quad,
            &VariableTypes::default(),
            &VariableTypes::default(),
            1
        ),
        "small quad patterns may still use for-loop join even without entry-provided bindings",
    );
    assert!(
        is_fit_for_for_loop_join(&quad, &VariableTypes::default(), &entry_types, 1),
        "quad pattern should use for-loop join when entry binds one of its variables",
    );
}

#[test]
fn subclass_quad_for_loop_is_disabled_for_large_left_inputs() {
    let subclass_quad = GraphPattern::QuadPattern {
        subject: Variable::new_unchecked("s").into(),
        predicate: NamedNode::new_unchecked(RDFS_SUBCLASS_OF_IRI).into(),
        object: Variable::new_unchecked("o").into(),
        graph_name: None,
    };
    assert!(
        !is_fit_for_for_loop_join(
            &subclass_quad,
            &VariableTypes::default(),
            &VariableTypes::default(),
            subclass_for_loop_max_left_size(None).saturating_add(1),
        ),
        "large lateral loops over rdfs:subClassOf triples should be avoided",
    );
    assert!(
        is_fit_for_for_loop_join(
            &subclass_quad,
            &VariableTypes::default(),
            &VariableTypes::default(),
            subclass_for_loop_max_left_size(None),
        ),
        "subClassOf quad should still be allowed at or below the threshold",
    );
}

#[test]
fn non_subclass_quad_is_not_blocked_by_large_left_inputs() {
    let quad = GraphPattern::QuadPattern {
        subject: Variable::new_unchecked("s").into(),
        predicate: NamedNode::new_unchecked("http://example.com/p").into(),
        object: Variable::new_unchecked("o").into(),
        graph_name: None,
    };
    assert!(
        is_fit_for_for_loop_join(
            &quad,
            &VariableTypes::default(),
            &VariableTypes::default(),
            subclass_for_loop_max_left_size(None).saturating_add(1),
        ),
        "the size guard should target rdfs:subClassOf quads only",
    );
}

#[test]
fn optimizer_lateralizes_attack_id_anchored_subclass_path() {
    let off_tech = Variable::new_unchecked("off_tech");
    let framework_root = Variable::new_unchecked("framework_root_iri");
    let attack_id_quad = GraphPattern::QuadPattern {
        subject: off_tech.clone().into(),
        predicate: NamedNode::new_unchecked("http://example.com/attack-id").into(),
        object: Literal::new_simple_literal("T1546").into(),
        graph_name: None,
    };
    let path = GraphPattern::Path {
        subject: off_tech.clone().into(),
        path: transitive_subclass_path_star(),
        object: framework_root.into(),
        graph_name: None,
    };
    let pattern = GraphPattern::join(
        attack_id_quad.clone(),
        path.clone(),
        JoinAlgorithm::HashBuildLeftProbeRight {
            keys: vec![off_tech.clone()],
        },
    );

    let optimized = Optimizer::optimize_graph_pattern(pattern);
    match optimized {
        GraphPattern::Lateral { left, right } => {
            assert_eq!(*left, attack_id_quad);
            assert_eq!(*right, path);
        }
        other => panic!(
            "optimizer should lateralize attack-id anchored subclass transitive paths, got {other:?}"
        ),
    }
}

fn has_lateral_subtree(
    pattern: &GraphPattern,
    expected_left: &GraphPattern,
    expected_right: &GraphPattern,
) -> bool {
    match pattern {
        GraphPattern::Lateral { left, right } => {
            (left.as_ref() == expected_left && right.as_ref() == expected_right)
                || has_lateral_subtree(left, expected_left, expected_right)
                || has_lateral_subtree(right, expected_left, expected_right)
        }
        GraphPattern::Join { left, right, .. }
        | GraphPattern::LeftJoin { left, right, .. }
        | GraphPattern::Minus { left, right, .. } => {
            has_lateral_subtree(left, expected_left, expected_right)
                || has_lateral_subtree(right, expected_left, expected_right)
        }
        GraphPattern::Filter { inner, .. }
        | GraphPattern::Extend { inner, .. }
        | GraphPattern::OrderBy { inner, .. }
        | GraphPattern::Project { inner, .. }
        | GraphPattern::Distinct { inner, .. }
        | GraphPattern::Reduced { inner, .. }
        | GraphPattern::Slice { inner, .. }
        | GraphPattern::Group { inner, .. }
        | GraphPattern::Service { inner, .. } => {
            has_lateral_subtree(inner, expected_left, expected_right)
        }
        GraphPattern::Union { inner } => inner
            .iter()
            .any(|branch| has_lateral_subtree(branch, expected_left, expected_right)),
        GraphPattern::Values { .. }
        | GraphPattern::QuadPattern { .. }
        | GraphPattern::Path { .. }
        | GraphPattern::Graph { .. } => false,
    }
}

fn has_lateral_with_union_right(pattern: &GraphPattern) -> bool {
    match pattern {
        GraphPattern::Lateral { left, right } => {
            matches!(right.as_ref(), GraphPattern::Union { .. })
                || has_lateral_with_union_right(left)
                || has_lateral_with_union_right(right)
        }
        GraphPattern::Join { left, right, .. }
        | GraphPattern::LeftJoin { left, right, .. }
        | GraphPattern::Minus { left, right, .. } => {
            has_lateral_with_union_right(left) || has_lateral_with_union_right(right)
        }
        GraphPattern::Filter { inner, .. }
        | GraphPattern::Extend { inner, .. }
        | GraphPattern::OrderBy { inner, .. }
        | GraphPattern::Project { inner, .. }
        | GraphPattern::Distinct { inner, .. }
        | GraphPattern::Reduced { inner, .. }
        | GraphPattern::Slice { inner, .. }
        | GraphPattern::Group { inner, .. }
        | GraphPattern::Service { inner, .. } => has_lateral_with_union_right(inner),
        GraphPattern::Union { inner } => inner.iter().any(has_lateral_with_union_right),
        GraphPattern::Values { .. }
        | GraphPattern::QuadPattern { .. }
        | GraphPattern::Path { .. }
        | GraphPattern::Graph { .. } => false,
    }
}

#[test]
fn optimizer_keeps_attack_id_anchored_subclass_path_lateral_under_framework_root_join() {
    let off_tech = Variable::new_unchecked("off_tech");
    let framework_root = Variable::new_unchecked("framework_root_iri");
    let framework_root_key = framework_root.clone();
    let off_top_level = Variable::new_unchecked("off_top_level");
    let attack_id_quad = GraphPattern::QuadPattern {
        subject: off_tech.clone().into(),
        predicate: NamedNode::new_unchecked("http://example.com/attack-id").into(),
        object: Literal::new_simple_literal("T1546").into(),
        graph_name: None,
    };
    let path = GraphPattern::Path {
        subject: off_tech.clone().into(),
        path: transitive_subclass_path_star(),
        object: framework_root.clone().into(),
        graph_name: None,
    };
    let framework_root_child = GraphPattern::QuadPattern {
        subject: off_top_level.into(),
        predicate: NamedNode::new_unchecked(RDFS_SUBCLASS_OF_IRI).into(),
        object: framework_root.into(),
        graph_name: None,
    };
    let pattern = GraphPattern::join(
        GraphPattern::join(
            attack_id_quad.clone(),
            path.clone(),
            JoinAlgorithm::HashBuildLeftProbeRight {
                keys: vec![off_tech.clone()],
            },
        ),
        framework_root_child,
        JoinAlgorithm::HashBuildLeftProbeRight {
            keys: vec![framework_root_key],
        },
    );

    let optimized = Optimizer::optimize_graph_pattern(pattern);
    assert!(
        has_lateral_subtree(&optimized, &attack_id_quad, &path),
        "optimizer should keep the attack-id anchor correlated with the subclass path even when another join consumes framework_root_iri, got {optimized:?}",
    );
}

#[test]
fn optimizer_lateralizes_union_of_join_branches_for_small_anchor() {
    let off_tech = Variable::new_unchecked("off_tech");
    let top_level = Variable::new_unchecked("_off_top_level");
    let parent = Variable::new_unchecked("parent");
    let child = Variable::new_unchecked("child");
    let anchor = GraphPattern::extend(
        GraphPattern::extend(
            GraphPattern::empty_singleton(),
            off_tech.clone(),
            NamedNode::new_unchecked("http://example.com/off-tech").into(),
        ),
        top_level.clone(),
        NamedNode::new_unchecked("http://example.com/top-level").into(),
    );
    let branch_a = GraphPattern::join(
        GraphPattern::join(
            GraphPattern::QuadPattern {
                subject: parent.clone().into(),
                predicate: Variable::new_unchecked("off_artifact_rel").into(),
                object: Variable::new_unchecked("off_artifact").into(),
                graph_name: None,
            },
            GraphPattern::Path {
                subject: parent.clone().into(),
                path: transitive_subclass_path_plus(),
                object: top_level.into(),
                graph_name: None,
            },
            JoinAlgorithm::HashBuildLeftProbeRight {
                keys: vec![parent.clone()],
            },
        ),
        GraphPattern::Path {
            subject: off_tech.clone().into(),
            path: transitive_subclass_path_plus(),
            object: parent.into(),
            graph_name: None,
        },
        JoinAlgorithm::HashBuildLeftProbeRight {
            keys: vec![Variable::new_unchecked("parent")],
        },
    );
    let branch_b = GraphPattern::join(
        GraphPattern::QuadPattern {
            subject: child.clone().into(),
            predicate: Variable::new_unchecked("off_artifact_rel").into(),
            object: Variable::new_unchecked("off_artifact").into(),
            graph_name: None,
        },
        GraphPattern::Path {
            subject: child.into(),
            path: transitive_subclass_path_plus(),
            object: off_tech.clone().into(),
            graph_name: None,
        },
        JoinAlgorithm::HashBuildLeftProbeRight {
            keys: vec![Variable::new_unchecked("child")],
        },
    );
    let pattern = GraphPattern::join(
        anchor,
        GraphPattern::union_all(vec![branch_a, branch_b]),
        JoinAlgorithm::HashBuildLeftProbeRight {
            keys: vec![off_tech],
        },
    );

    let optimized = Optimizer::optimize_graph_pattern(pattern);
    assert!(
        has_lateral_with_union_right(&optimized),
        "small anchors should lateralize unions of join branches so the union runs per entry binding, got {optimized:?}",
    );
}

fn attack_id_anchored_subclass_lateral_shared_factor() -> GraphPattern {
    let off_tech = Variable::new_unchecked("s");
    let off_tech_id = Variable::new_unchecked("off_tech_id");
    let framework_root = Variable::new_unchecked("framework_root_iri");
    GraphPattern::lateral(
        GraphPattern::lateral(
            GraphPattern::extend(
                GraphPattern::empty_singleton(),
                off_tech_id.clone(),
                Literal::new_simple_literal("T1546").into(),
            ),
            GraphPattern::QuadPattern {
                subject: off_tech.clone().into(),
                predicate: NamedNode::new_unchecked("http://example.com/attack-id").into(),
                object: off_tech_id.into(),
                graph_name: None,
            },
        ),
        GraphPattern::Path {
            subject: off_tech.into(),
            path: transitive_subclass_path_star(),
            object: framework_root.into(),
            graph_name: None,
        },
    )
}

fn singleton_anchored_subclass_lateral_factor() -> GraphPattern {
    let off_tech = Variable::new_unchecked("s");
    let framework_root = Variable::new_unchecked("framework_root_iri");
    GraphPattern::lateral(
        GraphPattern::extend(
            GraphPattern::empty_singleton(),
            off_tech.clone(),
            NamedNode::new_unchecked("http://example.com/seed").into(),
        ),
        GraphPattern::Path {
            subject: off_tech.into(),
            path: transitive_subclass_path_star(),
            object: framework_root.into(),
            graph_name: None,
        },
    )
}

fn expensive_cartesian_subclass_path() -> GraphPattern {
    GraphPattern::Path {
        subject: Variable::new_unchecked("wide_left").into(),
        path: transitive_subclass_path_star(),
        object: Variable::new_unchecked("wide_right").into(),
        graph_name: None,
    }
}

fn expensive_relaxed_subclass_lateral_shared_factor() -> GraphPattern {
    GraphPattern::join(
        attack_id_anchored_subclass_lateral_shared_factor(),
        expensive_cartesian_subclass_path(),
        JoinAlgorithm::HashBuildLeftProbeRight { keys: Vec::new() },
    )
}

fn expensive_singleton_subclass_lateral_shared_factor() -> GraphPattern {
    GraphPattern::join(
        singleton_anchored_subclass_lateral_factor(),
        expensive_cartesian_subclass_path(),
        JoinAlgorithm::HashBuildLeftProbeRight { keys: Vec::new() },
    )
}

fn raw_attack_id_anchored_subclass_shared_factor() -> GraphPattern {
    let off_tech = Variable::new_unchecked("s");
    let off_tech_id = Variable::new_unchecked("off_tech_id");
    let framework_root = Variable::new_unchecked("framework_root_iri");
    GraphPattern::join(
        GraphPattern::join(
            GraphPattern::extend(
                GraphPattern::empty_singleton(),
                off_tech_id.clone(),
                Literal::new_simple_literal("T1546").into(),
            ),
            GraphPattern::QuadPattern {
                subject: off_tech.clone().into(),
                predicate: NamedNode::new_unchecked("http://example.com/attack-id").into(),
                object: off_tech_id.into(),
                graph_name: None,
            },
            JoinAlgorithm::HashBuildLeftProbeRight {
                keys: vec![Variable::new_unchecked("off_tech_id")],
            },
        ),
        GraphPattern::join(
            GraphPattern::Path {
                subject: off_tech.into(),
                path: transitive_subclass_path_star(),
                object: framework_root.into(),
                graph_name: None,
            },
            expensive_cartesian_subclass_path(),
            JoinAlgorithm::HashBuildLeftProbeRight { keys: Vec::new() },
        ),
        JoinAlgorithm::HashBuildLeftProbeRight {
            keys: vec![Variable::new_unchecked("s")],
        },
    )
}

fn has_singleton_union_left_join(pattern: &GraphPattern) -> bool {
    match pattern {
        GraphPattern::LeftJoin { left, right, .. } => {
            split_singleton_union_branches(right).is_some()
                || has_singleton_union_left_join(left)
                || has_singleton_union_left_join(right)
        }
        GraphPattern::Join { left, right, .. } | GraphPattern::Minus { left, right, .. } => {
            has_singleton_union_left_join(left) || has_singleton_union_left_join(right)
        }
        GraphPattern::Lateral { left, right } => {
            has_singleton_union_left_join(left) || has_singleton_union_left_join(right)
        }
        GraphPattern::Filter { inner, .. }
        | GraphPattern::Extend { inner, .. }
        | GraphPattern::OrderBy { inner, .. }
        | GraphPattern::Project { inner, .. }
        | GraphPattern::Distinct { inner, .. }
        | GraphPattern::Reduced { inner, .. }
        | GraphPattern::Slice { inner, .. }
        | GraphPattern::Group { inner, .. }
        | GraphPattern::Service { inner, .. } => has_singleton_union_left_join(inner),
        GraphPattern::Union { inner } => inner.iter().any(has_singleton_union_left_join),
        GraphPattern::Values { .. }
        | GraphPattern::QuadPattern { .. }
        | GraphPattern::Path { .. }
        | GraphPattern::Graph { .. } => false,
    }
}

fn has_singleton_union_inner_join(pattern: &GraphPattern) -> bool {
    match pattern {
        GraphPattern::Join { left, right, .. } => {
            split_singleton_union_branches(left).is_some()
                || split_singleton_union_branches(right).is_some()
                || has_singleton_union_inner_join(left)
                || has_singleton_union_inner_join(right)
        }
        GraphPattern::LeftJoin { left, right, .. }
        | GraphPattern::Minus { left, right, .. } => {
            has_singleton_union_inner_join(left) || has_singleton_union_inner_join(right)
        }
        GraphPattern::Lateral { left, right } => {
            has_singleton_union_inner_join(left) || has_singleton_union_inner_join(right)
        }
        GraphPattern::Filter { inner, .. }
        | GraphPattern::Extend { inner, .. }
        | GraphPattern::OrderBy { inner, .. }
        | GraphPattern::Project { inner, .. }
        | GraphPattern::Distinct { inner, .. }
        | GraphPattern::Reduced { inner, .. }
        | GraphPattern::Slice { inner, .. }
        | GraphPattern::Group { inner, .. }
        | GraphPattern::Service { inner, .. } => has_singleton_union_inner_join(inner),
        GraphPattern::Union { inner } => inner.iter().any(has_singleton_union_inner_join),
        GraphPattern::Values { .. }
        | GraphPattern::QuadPattern { .. }
        | GraphPattern::Path { .. }
        | GraphPattern::Graph { .. } => false,
    }
}

fn has_union_inner_join_with_factor(pattern: &GraphPattern, factor: &GraphPattern) -> bool {
    match pattern {
        GraphPattern::Join { left, right, .. } => {
            (matches!(left.as_ref(), GraphPattern::Union { .. }) && right.as_ref() == factor)
                || (matches!(right.as_ref(), GraphPattern::Union { .. })
                    && left.as_ref() == factor)
                || has_union_inner_join_with_factor(left, factor)
                || has_union_inner_join_with_factor(right, factor)
        }
        GraphPattern::LeftJoin { left, right, .. }
        | GraphPattern::Minus { left, right, .. } => {
            has_union_inner_join_with_factor(left, factor)
                || has_union_inner_join_with_factor(right, factor)
        }
        GraphPattern::Lateral { left, right } => {
            has_union_inner_join_with_factor(left, factor)
                || has_union_inner_join_with_factor(right, factor)
        }
        GraphPattern::Filter { inner, .. }
        | GraphPattern::Extend { inner, .. }
        | GraphPattern::OrderBy { inner, .. }
        | GraphPattern::Project { inner, .. }
        | GraphPattern::Distinct { inner, .. }
        | GraphPattern::Reduced { inner, .. }
        | GraphPattern::Slice { inner, .. }
        | GraphPattern::Group { inner, .. }
        | GraphPattern::Service { inner, .. } => {
            has_union_inner_join_with_factor(inner, factor)
        }
        GraphPattern::Union { inner } => inner
            .iter()
            .any(|branch| has_union_inner_join_with_factor(branch, factor)),
        GraphPattern::Values { .. }
        | GraphPattern::QuadPattern { .. }
        | GraphPattern::Path { .. }
        | GraphPattern::Graph { .. } => false,
    }
}

fn count_occurrences(pattern: &GraphPattern, target: &GraphPattern) -> usize {
    let self_count = usize::from(pattern == target);
    self_count
        + match pattern {
            GraphPattern::Join { left, right, .. }
            | GraphPattern::LeftJoin { left, right, .. }
            | GraphPattern::Minus { left, right, .. } => {
                count_occurrences(left, target) + count_occurrences(right, target)
            }
            GraphPattern::Lateral { left, right } => {
                count_occurrences(left, target) + count_occurrences(right, target)
            }
            GraphPattern::Filter { inner, .. }
            | GraphPattern::Extend { inner, .. }
            | GraphPattern::OrderBy { inner, .. }
            | GraphPattern::Project { inner, .. }
            | GraphPattern::Distinct { inner, .. }
            | GraphPattern::Reduced { inner, .. }
            | GraphPattern::Slice { inner, .. }
            | GraphPattern::Group { inner, .. }
            | GraphPattern::Service { inner, .. } => count_occurrences(inner, target),
            GraphPattern::Union { inner } => inner
                .iter()
                .map(|branch| count_occurrences(branch, target))
                .sum(),
            GraphPattern::Values { .. }
            | GraphPattern::QuadPattern { .. }
            | GraphPattern::Path { .. }
            | GraphPattern::Graph { .. } => 0,
        }
}

#[test]
fn inner_join_with_singleton_union_branch_gets_rewritten() {
    let left = GraphPattern::QuadPattern {
        subject: Variable::new_unchecked("s").into(),
        predicate: NamedNode::new_unchecked("http://example.com/p").into(),
        object: Variable::new_unchecked("o").into(),
        graph_name: None,
    };
    let right = GraphPattern::QuadPattern {
        subject: Variable::new_unchecked("s").into(),
        predicate: NamedNode::new_unchecked("http://example.com/q").into(),
        object: Variable::new_unchecked("x").into(),
        graph_name: None,
    };
    let pattern = GraphPattern::join(
        left.clone(),
        GraphPattern::union_all(vec![GraphPattern::empty_singleton(), right]),
        JoinAlgorithm::HashBuildLeftProbeRight {
            keys: vec![Variable::new_unchecked("s")],
        },
    );

    let optimized = Optimizer::optimize_graph_pattern(pattern);
    assert!(
        matches!(optimized, GraphPattern::Union { .. }),
        "join with `{{}} UNION {{...}}` should become a union of the left side and an inner join"
    );
    assert!(
        !has_singleton_union_inner_join(&optimized),
        "optimized plan should not keep a singleton-union inner join shape"
    );
}

#[test]
fn true_left_join_with_singleton_union_branch_gets_rewritten() {
    let left = GraphPattern::QuadPattern {
        subject: Variable::new_unchecked("s").into(),
        predicate: NamedNode::new_unchecked("http://example.com/p").into(),
        object: Variable::new_unchecked("o").into(),
        graph_name: None,
    };
    let right = GraphPattern::QuadPattern {
        subject: Variable::new_unchecked("s").into(),
        predicate: NamedNode::new_unchecked("http://example.com/q").into(),
        object: Variable::new_unchecked("x").into(),
        graph_name: None,
    };
    let pattern = GraphPattern::left_join(
        left.clone(),
        GraphPattern::union_all(vec![GraphPattern::empty_singleton(), right]),
        Expression::boolean(true),
        LeftJoinAlgorithm::HashBuildRightProbeLeft {
            keys: vec![Variable::new_unchecked("s")],
        },
    );

    let optimized = Optimizer::optimize_graph_pattern(pattern);
    assert!(
        matches!(optimized, GraphPattern::Union { .. }),
        "left join with `{{}} UNION {{...}}` should become a union of the left side and an inner join"
    );
    assert!(
        !has_singleton_union_left_join(&optimized),
        "optimized plan should not keep a singleton-union left join shape"
    );
}

#[test]
fn lateralized_subclass_inner_join_singleton_union_branch_is_not_duplicated() {
    let shared = expensive_relaxed_subclass_lateral_shared_factor();
    let anchored_factor = attack_id_anchored_subclass_lateral_shared_factor();
    let extra = GraphPattern::QuadPattern {
        subject: Variable::new_unchecked("s").into(),
        predicate: NamedNode::new_unchecked("http://example.com/q").into(),
        object: Variable::new_unchecked("x").into(),
        graph_name: None,
    };
    assert!(
        should_avoid_singleton_union_duplication(&shared, &VariableTypes::default()),
        "test precondition: the shared factor should be expensive enough to skip singleton-union duplication",
    );
    let pattern = GraphPattern::join(
        shared.clone(),
        GraphPattern::union_all(vec![GraphPattern::empty_singleton(), extra]),
        JoinAlgorithm::HashBuildLeftProbeRight {
            keys: vec![Variable::new_unchecked("s")],
        },
    );

    let optimized = Optimizer::optimize_graph_pattern(pattern);
    assert_eq!(
        count_occurrences(&optimized, &anchored_factor),
        1,
        "lateralized anchored subclass factors should not be duplicated across singleton-union inner joins",
    );
}

#[test]
fn lateralized_subclass_left_join_singleton_union_branch_is_not_duplicated() {
    let shared = expensive_relaxed_subclass_lateral_shared_factor();
    let anchored_factor = attack_id_anchored_subclass_lateral_shared_factor();
    let extra = GraphPattern::QuadPattern {
        subject: Variable::new_unchecked("s").into(),
        predicate: NamedNode::new_unchecked("http://example.com/q").into(),
        object: Variable::new_unchecked("x").into(),
        graph_name: None,
    };
    assert!(
        should_avoid_singleton_union_duplication(&shared, &VariableTypes::default()),
        "test precondition: the shared factor should be expensive enough to skip singleton-union duplication",
    );
    let pattern = GraphPattern::left_join(
        shared.clone(),
        GraphPattern::union_all(vec![GraphPattern::empty_singleton(), extra]),
        Expression::boolean(true),
        LeftJoinAlgorithm::HashBuildRightProbeLeft {
            keys: vec![Variable::new_unchecked("s")],
        },
    );

    let optimized = Optimizer::optimize_graph_pattern(pattern);
    assert_eq!(
        count_occurrences(&optimized, &anchored_factor),
        1,
        "lateralized anchored subclass factors should not be duplicated across singleton-union left joins",
    );
}

#[test]
fn flat_singleton_union_rewrite_preserves_non_singleton_branches() {
    let shared = expensive_relaxed_subclass_lateral_shared_factor();
    let anchored_factor = attack_id_anchored_subclass_lateral_shared_factor();
    let base = GraphPattern::QuadPattern {
        subject: Variable::new_unchecked("s").into(),
        predicate: NamedNode::new_unchecked("http://example.com/p").into(),
        object: Variable::new_unchecked("label").into(),
        graph_name: None,
    };
    let extra = GraphPattern::QuadPattern {
        subject: Variable::new_unchecked("s").into(),
        predicate: NamedNode::new_unchecked("http://example.com/q").into(),
        object: Variable::new_unchecked("x").into(),
        graph_name: None,
    };
    let pattern = GraphPattern::join(
        GraphPattern::join(
            shared,
            base.clone(),
            JoinAlgorithm::HashBuildLeftProbeRight {
                keys: vec![Variable::new_unchecked("s")],
            },
        ),
        GraphPattern::union_all(vec![GraphPattern::empty_singleton(), extra.clone()]),
        JoinAlgorithm::HashBuildLeftProbeRight {
            keys: vec![Variable::new_unchecked("s")],
        },
    );

    let optimized = Optimizer::optimize_graph_pattern(pattern);
    assert_eq!(
        count_occurrences(&optimized, &anchored_factor),
        1,
        "the guarded anchored subclass factor should stay shared outside the rewritten singleton-UNION branch",
    );
    assert!(
        count_occurrences(&optimized, &extra) >= 1,
        "flattened singleton-union rewrites must preserve the non-singleton UNION branch",
    );
}

#[test]
fn singleton_anchor_subclass_branch_is_still_duplicated_by_singleton_union_rewrite() {
    let shared = expensive_singleton_subclass_lateral_shared_factor();
    let anchored_factor = singleton_anchored_subclass_lateral_factor();
    let extra = GraphPattern::QuadPattern {
        subject: Variable::new_unchecked("s").into(),
        predicate: NamedNode::new_unchecked("http://example.com/q").into(),
        object: Variable::new_unchecked("x").into(),
        graph_name: None,
    };
    assert!(
        !should_avoid_singleton_union_duplication(&shared, &VariableTypes::default()),
        "test precondition: singleton-anchored subclass laterals should not block singleton-union duplication",
    );
    let pattern = GraphPattern::join(
        shared,
        GraphPattern::union_all(vec![GraphPattern::empty_singleton(), extra.clone()]),
        JoinAlgorithm::HashBuildLeftProbeRight {
            keys: vec![Variable::new_unchecked("s")],
        },
    );

    let optimized = Optimizer::optimize_graph_pattern(pattern);
    assert!(
        matches!(optimized, GraphPattern::Union { .. }),
        "singleton-UNION rewrite should still fire when the subclass lateral only depends on a true singleton anchor",
    );
    assert!(
        count_occurrences(&optimized, &anchored_factor) >= 2,
        "large branches with only singleton-anchored subclass laterals should still be duplicable",
    );
}

#[test]
fn raw_attack_id_subclass_branch_is_not_duplicated_by_singleton_union_rewrite() {
    let shared = raw_attack_id_anchored_subclass_shared_factor();
    let anchored_factor = attack_id_anchored_subclass_lateral_shared_factor();
    let extra = GraphPattern::QuadPattern {
        subject: Variable::new_unchecked("s").into(),
        predicate: NamedNode::new_unchecked("http://example.com/q").into(),
        object: Variable::new_unchecked("x").into(),
        graph_name: None,
    };
    let reordered_shared = Optimizer::reorder_joins(
        shared.clone(),
        &VariableTypes::default(),
        &Limits::default(),
    );
    assert!(
        should_avoid_singleton_union_duplication(&reordered_shared, &VariableTypes::default()),
        "test precondition: the preview-reordered shared factor should expose the relaxed subclass lateral",
    );
    let pattern = GraphPattern::join(
        shared,
        GraphPattern::union_all(vec![GraphPattern::empty_singleton(), extra.clone()]),
        JoinAlgorithm::HashBuildLeftProbeRight {
            keys: vec![Variable::new_unchecked("s")],
        },
    );

    let optimized = Optimizer::optimize_graph_pattern(pattern);
    assert_eq!(
        count_occurrences(&optimized, &anchored_factor),
        1,
        "singleton-union rewrites should not duplicate raw branches that preview into the anchored subclass lateral shape",
    );
    assert!(
        count_occurrences(&optimized, &extra) >= 1,
        "singleton-union rewrites must preserve the non-singleton UNION branch for raw anchored subclasses too",
    );
}

#[test]
fn small_factor_is_distributed_over_cartesian_union_branch() {
    let target = Variable::new_unchecked("target");
    let parent = Variable::new_unchecked("parent");
    let child = Variable::new_unchecked("child");

    let branch_a = GraphPattern::join(
        GraphPattern::Path {
            subject: parent.clone().into(),
            path: transitive_subclass_path_star(),
            object: NamedNode::new_unchecked("http://example.com/Artifact").into(),
            graph_name: None,
        },
        GraphPattern::Path {
            subject: target.clone().into(),
            path: transitive_subclass_path_star(),
            object: child.clone().into(),
            graph_name: None,
        },
        JoinAlgorithm::HashBuildLeftProbeRight { keys: Vec::new() },
    );
    let branch_b = GraphPattern::Path {
        subject: parent.clone().into(),
        path: transitive_subclass_path_star(),
        object: target.clone().into(),
        graph_name: None,
    };
    let factor = GraphPattern::QuadPattern {
        subject: child.clone().into(),
        predicate: NamedNode::new_unchecked(RDFS_SUBCLASS_OF_IRI).into(),
        object: parent.clone().into(),
        graph_name: None,
    };
    let pattern = GraphPattern::join(
        GraphPattern::union_all(vec![branch_a, branch_b]),
        factor.clone(),
        JoinAlgorithm::HashBuildLeftProbeRight {
            keys: vec![parent.clone()],
        },
    );

    let optimized = Optimizer::optimize_graph_pattern(pattern);
    assert!(
        !has_union_inner_join_with_factor(&optimized, &factor),
        "optimizer should not keep UNION directly joined with the bridge factor",
    );
    assert!(
        count_occurrences(&optimized, &factor) >= 2,
        "bridge factor should be pushed into UNION branches after distribution",
    );
}

#[test]
fn flat_distribution_keeps_base_factors_shared() {
    let target = Variable::new_unchecked("target");
    let parent = Variable::new_unchecked("parent");
    let child = Variable::new_unchecked("child");
    let parent_label = Variable::new_unchecked("parent_label");

    let branch_a = GraphPattern::join(
        GraphPattern::Path {
            subject: parent.clone().into(),
            path: transitive_subclass_path_star(),
            object: NamedNode::new_unchecked("http://example.com/Artifact").into(),
            graph_name: None,
        },
        GraphPattern::Path {
            subject: target.clone().into(),
            path: transitive_subclass_path_star(),
            object: child.clone().into(),
            graph_name: None,
        },
        JoinAlgorithm::HashBuildLeftProbeRight { keys: Vec::new() },
    );
    let branch_b = GraphPattern::Path {
        subject: parent.clone().into(),
        path: transitive_subclass_path_star(),
        object: target.clone().into(),
        graph_name: None,
    };
    let factor = GraphPattern::QuadPattern {
        subject: child.clone().into(),
        predicate: NamedNode::new_unchecked(RDFS_SUBCLASS_OF_IRI).into(),
        object: parent.clone().into(),
        graph_name: None,
    };
    let base = GraphPattern::QuadPattern {
        subject: parent.clone().into(),
        predicate: NamedNode::new_unchecked("http://www.w3.org/2000/01/rdf-schema#label")
            .into(),
        object: parent_label.into(),
        graph_name: None,
    };
    let pattern = GraphPattern::join(
        GraphPattern::join(
            base.clone(),
            factor.clone(),
            JoinAlgorithm::HashBuildLeftProbeRight {
                keys: vec![parent.clone()],
            },
        ),
        GraphPattern::union_all(vec![branch_a, branch_b]),
        JoinAlgorithm::HashBuildLeftProbeRight {
            keys: vec![parent.clone()],
        },
    );

    let optimized = Optimizer::optimize_graph_pattern(pattern);
    assert!(
        !has_union_inner_join_with_factor(&optimized, &factor),
        "optimizer should still push the bridge factor into UNION branches",
    );
    assert_eq!(
        count_occurrences(&optimized, &base),
        1,
        "base factors should stay shared instead of being duplicated per UNION branch",
    );
}

#[test]
fn expensive_factor_is_not_distributed_over_union() {
    let x = Variable::new_unchecked("x");
    let a = Variable::new_unchecked("a");
    let u = Variable::new_unchecked("u");
    let v = Variable::new_unchecked("v");
    let y = Variable::new_unchecked("y");

    let branch_a = GraphPattern::join(
        GraphPattern::QuadPattern {
            subject: x.clone().into(),
            predicate: NamedNode::new_unchecked("http://example.com/p").into(),
            object: a.into(),
            graph_name: None,
        },
        GraphPattern::QuadPattern {
            subject: u.into(),
            predicate: NamedNode::new_unchecked("http://example.com/q").into(),
            object: v.into(),
            graph_name: None,
        },
        JoinAlgorithm::HashBuildLeftProbeRight { keys: Vec::new() },
    );
    let branch_b = GraphPattern::QuadPattern {
        subject: x.clone().into(),
        predicate: NamedNode::new_unchecked("http://example.com/r").into(),
        object: Variable::new_unchecked("b").into(),
        graph_name: None,
    };
    let expensive_factor = GraphPattern::Path {
        subject: x.clone().into(),
        path: transitive_subclass_path_star(),
        object: y.into(),
        graph_name: None,
    };
    let pattern = GraphPattern::join(
        GraphPattern::union_all(vec![branch_a, branch_b]),
        expensive_factor.clone(),
        JoinAlgorithm::HashBuildLeftProbeRight {
            keys: vec![x.clone()],
        },
    );

    let optimized = Optimizer::optimize_graph_pattern(pattern);
    assert!(
        has_union_inner_join_with_factor(&optimized, &expensive_factor),
        "rewrite should stay off for factors above the configured cost threshold",
    );
    assert_eq!(
        count_occurrences(&optimized, &expensive_factor),
        1,
        "expensive factors must not be duplicated by UNION distribution",
    );
}

#[test]
fn deep_unrelated_cartesian_join_does_not_trigger_distribution() {
    let x = Variable::new_unchecked("x");
    let left_deep = GraphPattern::QuadPattern {
        subject: x.clone().into(),
        predicate: NamedNode::new_unchecked("http://example.com/p").into(),
        object: Variable::new_unchecked("p_obj").into(),
        graph_name: None,
    };
    let right_deep = GraphPattern::QuadPattern {
        subject: Variable::new_unchecked("u").into(),
        predicate: NamedNode::new_unchecked("http://example.com/q").into(),
        object: Variable::new_unchecked("q_obj").into(),
        graph_name: None,
    };
    let branch_with_deep_cartesian = GraphPattern::join(
        GraphPattern::join(
            left_deep,
            right_deep,
            JoinAlgorithm::HashBuildLeftProbeRight { keys: Vec::new() },
        ),
        GraphPattern::QuadPattern {
            subject: x.clone().into(),
            predicate: NamedNode::new_unchecked("http://example.com/r").into(),
            object: Variable::new_unchecked("r_obj").into(),
            graph_name: None,
        },
        JoinAlgorithm::HashBuildLeftProbeRight {
            keys: vec![x.clone()],
        },
    );
    let branch_without_cartesian = GraphPattern::QuadPattern {
        subject: x.clone().into(),
        predicate: NamedNode::new_unchecked("http://example.com/s").into(),
        object: Variable::new_unchecked("s_obj").into(),
        graph_name: None,
    };
    let factor = GraphPattern::QuadPattern {
        subject: x.clone().into(),
        predicate: NamedNode::new_unchecked("http://example.com/f").into(),
        object: Variable::new_unchecked("f_obj").into(),
        graph_name: None,
    };
    let pattern = GraphPattern::join(
        GraphPattern::union_all(vec![branch_with_deep_cartesian, branch_without_cartesian]),
        factor.clone(),
        JoinAlgorithm::HashBuildLeftProbeRight {
            keys: vec![x.clone()],
        },
    );

    let optimized = Optimizer::optimize_graph_pattern(pattern);
    assert!(
        has_union_inner_join_with_factor(&optimized, &factor),
        "distribution should not trigger from deep cartesian joins unrelated to the union root",
    );
}

#[test]
fn duplicate_quad_factor_is_removed_from_join() {
    let duplicated = GraphPattern::QuadPattern {
        subject: Variable::new_unchecked("s").into(),
        predicate: NamedNode::new_unchecked("http://example.com/p").into(),
        object: Variable::new_unchecked("o").into(),
        graph_name: None,
    };
    let other = GraphPattern::QuadPattern {
        subject: Variable::new_unchecked("s").into(),
        predicate: NamedNode::new_unchecked("http://example.com/q").into(),
        object: Variable::new_unchecked("x").into(),
        graph_name: None,
    };
    let pattern = GraphPattern::join(
        duplicated.clone(),
        GraphPattern::join(
            duplicated.clone(),
            other,
            JoinAlgorithm::HashBuildLeftProbeRight { keys: Vec::new() },
        ),
        JoinAlgorithm::HashBuildLeftProbeRight { keys: Vec::new() },
    );

    let optimized = Optimizer::optimize_graph_pattern(pattern);
    assert_eq!(
        count_occurrences(&optimized, &duplicated),
        1,
        "optimizer should deduplicate repeated atomic join factors",
    );
}

#[test]
fn duplicate_path_factor_is_removed_from_join() {
    let duplicated = GraphPattern::Path {
        subject: Variable::new_unchecked("s").into(),
        path: transitive_subclass_path_plus(),
        object: Variable::new_unchecked("o").into(),
        graph_name: None,
    };
    let other = GraphPattern::QuadPattern {
        subject: Variable::new_unchecked("o").into(),
        predicate: NamedNode::new_unchecked("http://example.com/p").into(),
        object: Variable::new_unchecked("x").into(),
        graph_name: None,
    };
    let pattern = GraphPattern::join(
        duplicated.clone(),
        GraphPattern::join(
            duplicated.clone(),
            other,
            JoinAlgorithm::HashBuildLeftProbeRight { keys: Vec::new() },
        ),
        JoinAlgorithm::HashBuildLeftProbeRight { keys: Vec::new() },
    );

    let optimized = Optimizer::optimize_graph_pattern(pattern);
    assert_eq!(
        count_occurrences(&optimized, &duplicated),
        1,
        "optimizer should deduplicate repeated path join factors",
    );
}

#[test]
fn common_atomic_factor_is_factored_out_of_union() {
    let common = GraphPattern::QuadPattern {
        subject: Variable::new_unchecked("s").into(),
        predicate: NamedNode::new_unchecked("http://example.com/common").into(),
        object: Variable::new_unchecked("o").into(),
        graph_name: None,
    };
    let left_only = GraphPattern::QuadPattern {
        subject: Variable::new_unchecked("s").into(),
        predicate: NamedNode::new_unchecked("http://example.com/left").into(),
        object: Variable::new_unchecked("x").into(),
        graph_name: None,
    };
    let right_only = GraphPattern::QuadPattern {
        subject: Variable::new_unchecked("s").into(),
        predicate: NamedNode::new_unchecked("http://example.com/right").into(),
        object: Variable::new_unchecked("y").into(),
        graph_name: None,
    };
    let pattern = GraphPattern::union_all(vec![
        GraphPattern::join(
            common.clone(),
            left_only,
            JoinAlgorithm::HashBuildLeftProbeRight { keys: Vec::new() },
        ),
        GraphPattern::join(
            common.clone(),
            right_only,
            JoinAlgorithm::HashBuildLeftProbeRight { keys: Vec::new() },
        ),
    ]);

    let optimized = Optimizer::optimize_graph_pattern(pattern);
    assert_eq!(
        count_occurrences(&optimized, &common),
        1,
        "optimizer should factor common atomic join factors out of UNION branches",
    );
}
