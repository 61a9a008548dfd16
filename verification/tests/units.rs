//! The parts of the optimizer, one by one.

use sparopt::estimate::{
    estimate_graph_pattern_size, estimate_path_size, estimate_triple_pattern_size,
    graph_pattern_reordering_penalty, path_reordering_penalty, RDFS_SUBCLASS_OF_IRI,
};
use sparopt::factors::{
    factor_common_join_factors_from_union, flatten_inner_join_factors, join_all_factors,
};
use sparopt::greedy::{pick_greatest, pick_least};
use sparopt::limits::{
    filter_exists_reorder_min_correlated_vars, join_union_distribution_max_branches,
    join_union_distribution_max_factor_cost, open_transitive_path_factor,
    open_transitive_path_full_scan_cost, open_transitive_path_min_cost, positive_setting, setting,
    subclass_for_loop_max_left_size, subclass_transitive_lateral_max_left_size,
    transitive_lateral_max_left_size,
};
use sparopt::lookups::{has_common_variables, join_key_variables};
use sparopt::normalize::{normalize_expression, normalize_pattern};
use sparopt::push_filters::push_filters;
use sparopt::type_inference::{
    infer_expression_type, infer_graph_pattern_types, VariableType, VariableTypes,
};
use sparopt::{
    Expression, Function, GraphPattern, GroundTerm, JoinAlgorithm, LeftJoinAlgorithm, Limits,
    Literal, MinusAlgorithm, NamedNode, Optimizer, PropertyPathExpression, Variable,
};

fn var(name: &str) -> Variable {
    Variable::new_unchecked(name)
}

fn node(name: &str) -> NamedNode {
    NamedNode::new_unchecked(&format!("http://example.com/{name}"))
}

fn quad(subject: &str, predicate: &str, object: &str) -> GraphPattern {
    GraphPattern::QuadPattern {
        subject: var(subject).into(),
        predicate: node(predicate).into(),
        object: var(object).into(),
        graph_name: None,
    }
}

fn join(left: GraphPattern, right: GraphPattern) -> GraphPattern {
    GraphPattern::Join {
        left: Box::new(left),
        right: Box::new(right),
        algorithm: no_keys(),
    }
}

fn no_keys() -> JoinAlgorithm {
    JoinAlgorithm::HashBuildLeftProbeRight { keys: Vec::new() }
}

fn no_left_keys() -> LeftJoinAlgorithm {
    LeftJoinAlgorithm::HashBuildRightProbeLeft { keys: Vec::new() }
}

fn no_minus_keys() -> MinusAlgorithm {
    MinusAlgorithm::HashBuildRightProbeLeft { keys: Vec::new() }
}

fn is(name: &str) -> Expression {
    Expression::Variable(var(name))
}

fn bound(name: &str) -> Expression {
    Expression::Bound(var(name))
}

fn equal(left: Expression, right: Expression) -> Expression {
    Expression::Equal(Box::new(left), Box::new(right))
}

fn literal(value: &str) -> Expression {
    Expression::Literal(Literal::new_simple_literal(value))
}

fn truth(value: bool) -> Expression {
    Expression::boolean(value)
}

fn no_types() -> VariableTypes {
    VariableTypes::default()
}

#[test]
fn settings_are_trimmed_and_read_as_numbers() {
    assert_eq!(setting(None, 16), 16);
    assert_eq!(setting(Some("7"), 16), 7);
    assert_eq!(setting(Some(" \t7\u{a0}\n"), 16), 7);
    assert_eq!(setting(Some("\u{3000}+42\u{2028}"), 16), 42);
    assert_eq!(setting(Some("007"), 16), 7);
    assert_eq!(setting(Some("0"), 16), 0);
}

#[test]
fn settings_that_are_no_numbers_give_the_default() {
    for text in ["", " ", "+", "-1", "-0", "1 2", "1_000", "0x10", "1.5", "++1", "seven", "\u{200b}7"] {
        assert_eq!(setting(Some(text), 16), 16, "{text:?}");
    }
    assert_eq!(setting(Some("99999999999999999999999"), 16), 16);
    assert_eq!(setting(Some(&usize::MAX.to_string()), 16), usize::MAX);
}

#[test]
fn settings_that_must_be_positive_are_not_zero() {
    assert_eq!(positive_setting(Some("0"), 16), 16);
    assert_eq!(positive_setting(Some(" 1 "), 16), 1);
    assert_eq!(positive_setting(None, 16), 16);
    assert_eq!(open_transitive_path_factor(Some("0")), 100_000);
    assert_eq!(open_transitive_path_factor(Some("5")), 5);
    assert_eq!(open_transitive_path_min_cost(Some("0")), 1_000_000);
    assert_eq!(open_transitive_path_full_scan_cost(Some("0")), 1_000_000_000);
}

#[test]
fn limits_have_their_defaults() {
    let limits = Limits::default();
    assert_eq!(open_transitive_path_factor(None), limits.open_transitive_path_factor);
    assert_eq!(open_transitive_path_min_cost(None), limits.open_transitive_path_min_cost);
    assert_eq!(
        open_transitive_path_full_scan_cost(None),
        limits.open_transitive_path_full_scan_cost
    );
    assert_eq!(transitive_lateral_max_left_size(None), 16);
    assert_eq!(transitive_lateral_max_left_size(Some("0")), 0);
    assert_eq!(subclass_transitive_lateral_max_left_size(None), 10_000);
    assert_eq!(subclass_for_loop_max_left_size(None), 10_000);
    assert_eq!(filter_exists_reorder_min_correlated_vars(None), 5);
    assert_eq!(join_union_distribution_max_factor_cost(None), 1_000_000);
    assert_eq!(join_union_distribution_max_branches(None), 8);
    assert_eq!(limits.join_union_distribution_max_branches, 8);
}

#[test]
fn triples_are_estimated_by_what_is_bound() {
    assert_eq!(estimate_triple_pattern_size(true, true, true), 1);
    assert_eq!(estimate_triple_pattern_size(true, true, false), 10);
    assert_eq!(estimate_triple_pattern_size(true, false, true), 2);
    assert_eq!(estimate_triple_pattern_size(false, true, true), 10_000);
    assert_eq!(estimate_triple_pattern_size(true, false, false), 100);
    assert_eq!(estimate_triple_pattern_size(false, true, false), 1_000_000);
    assert_eq!(estimate_triple_pattern_size(false, false, true), 100_000);
    assert_eq!(estimate_triple_pattern_size(false, false, false), 1_000_000_000);
}

fn path(name: &str) -> PropertyPathExpression {
    PropertyPathExpression::NamedNode(node(name))
}

#[test]
fn paths_are_estimated_by_their_form() {
    let limits = Limits::default();
    let size = |start: bool, path: &PropertyPathExpression, end: bool| {
        estimate_path_size(start, path, end, &limits)
    };
    let p = path("p");
    assert_eq!(size(true, &p, false), 10);
    assert_eq!(size(true, &PropertyPathExpression::Reverse(Box::new(path("p"))), false), 10_000);
    let sequence = PropertyPathExpression::Sequence(Box::new(path("p")), Box::new(path("q")));
    assert_eq!(size(true, &sequence, false), 100);
    let either = PropertyPathExpression::Alternative(Box::new(path("p")), Box::new(path("q")));
    assert_eq!(size(true, &either, false), 20);
    let star = PropertyPathExpression::ZeroOrMore(Box::new(path("p")));
    assert_eq!(size(true, &star, true), 1);
    assert_eq!(size(true, &star, false), 1_000_000);
    assert_eq!(size(false, &star, true), 1_000_000_000);
    assert_eq!(size(false, &star, false), 1_000_000_000);
    let maybe = PropertyPathExpression::ZeroOrOne(Box::new(path("p")));
    assert_eq!(size(true, &maybe, true), 1);
    assert_eq!(size(true, &maybe, false), 10);
    assert_eq!(size(false, &maybe, false), 1_000_000_000);
    let other = PropertyPathExpression::NegatedPropertySet(vec![node("p")]);
    assert_eq!(size(true, &other, false), 100);
}

#[test]
fn repeated_subclass_paths_are_cheap_from_the_bound_end() {
    let up = PropertyPathExpression::OneOrMore(Box::new(PropertyPathExpression::NamedNode(
        NamedNode::new_unchecked(RDFS_SUBCLASS_OF_IRI),
    )));
    let limits = Limits::default();
    assert_eq!(estimate_path_size(true, &up, false, &limits), 10);
    assert_eq!(estimate_path_size(false, &up, true, &limits), 1_000_000_000);
    let down = PropertyPathExpression::OneOrMore(Box::new(PropertyPathExpression::Reverse(
        Box::new(PropertyPathExpression::NamedNode(NamedNode::new_unchecked(
            RDFS_SUBCLASS_OF_IRI,
        ))),
    )));
    assert_eq!(estimate_path_size(false, &down, true, &limits), 10);
}

#[test]
fn joins_are_estimated_by_their_keys() {
    let limits = Limits::default();
    let size = |plan: &GraphPattern| estimate_graph_pattern_size(plan, &no_types(), &limits);
    let keyed = GraphPattern::Join {
        left: Box::new(quad("x", "p", "y")),
        right: Box::new(quad("x", "q", "z")),
        algorithm: JoinAlgorithm::HashBuildLeftProbeRight { keys: vec![var("x")] },
    };
    assert_eq!(size(&keyed), 1_000_000_000);
    assert_eq!(size(&join(quad("x", "p", "y"), quad("u", "q", "v"))), 1_000_000_000_000);
    let lateral = GraphPattern::Lateral {
        left: Box::new(quad("x", "p", "y")),
        right: Box::new(quad("x", "q", "z")),
    };
    assert_eq!(size(&lateral), 10_000_000);
    let union = GraphPattern::Union { inner: vec![quad("x", "p", "y"), quad("x", "q", "y")] };
    assert_eq!(size(&union), 2_000_000);
    assert_eq!(size(&GraphPattern::empty()), 0);
    assert_eq!(size(&GraphPattern::empty_singleton()), 1);
    let huge = join(join(keyed, lateral), union);
    assert_eq!(
        size(&huge),
        1_000_000_000usize.saturating_mul(10_000_000).saturating_mul(2_000_000)
    );
}

#[test]
fn open_paths_are_put_off() {
    let star = PropertyPathExpression::ZeroOrMore(Box::new(path("p")));
    assert_eq!(path_reordering_penalty(true, &star, true), 1);
    assert_eq!(path_reordering_penalty(true, &star, false), 2);
    assert_eq!(path_reordering_penalty(false, &star, false), 3);
    assert_eq!(path_reordering_penalty(false, &path("p"), false), 0);
    assert_eq!(graph_pattern_reordering_penalty(&quad("x", "p", "y"), &no_types()), 0);
    assert_eq!(
        graph_pattern_reordering_penalty(&GraphPattern::Union { inner: vec![] }, &no_types()),
        1
    );
}

#[test]
fn the_first_of_the_least_is_picked() {
    assert_eq!(pick_least(&vec![]), None);
    assert_eq!(pick_least(&vec![None, None]), None);
    assert_eq!(pick_least(&vec![None, Some((2, 0)), Some((1, 5)), Some((1, 5))]), Some(2));
    assert_eq!(pick_least(&vec![Some((1, 2)), Some((1, 1))]), Some(1));
}

#[test]
fn the_last_of_the_greatest_is_picked() {
    assert_eq!(pick_greatest(&vec![]), None);
    assert_eq!(pick_greatest(&vec![Some((1, true, 5)), None, Some((1, true, 5))]), Some(2));
    assert_eq!(pick_greatest(&vec![Some((1, true, 5)), Some((1, false, 1))]), Some(0));
    assert_eq!(pick_greatest(&vec![Some((1, true, 5)), Some((1, true, 1))]), Some(1));
    assert_eq!(pick_greatest(&vec![Some((2, false, 9)), Some((1, true, 1))]), Some(0));
}

#[test]
fn conjunctions_are_flattened_and_decided() {
    assert_eq!(Expression::and_all(vec![]), truth(true));
    assert_eq!(Expression::and_all(vec![bound("x"), truth(false)]), truth(false));
    assert_eq!(Expression::and_all(vec![truth(true), bound("x")]), bound("x"));
    assert_eq!(Expression::and_all(vec![is("x")]), Expression::And(vec![is("x")]));
    assert_eq!(
        Expression::and_all(vec![
            Expression::And(vec![bound("x"), bound("y")]),
            bound("z")
        ]),
        Expression::And(vec![bound("x"), bound("y"), bound("z")])
    );
}

#[test]
fn disjunctions_are_flattened_and_decided() {
    assert_eq!(Expression::or_all(vec![]), truth(false));
    assert_eq!(Expression::or_all(vec![bound("x"), truth(true)]), truth(true));
    assert_eq!(Expression::or_all(vec![truth(false), bound("x")]), bound("x"));
    assert_eq!(
        Expression::or_all(vec![Expression::Or(vec![bound("x"), bound("y")]), bound("z")]),
        Expression::Or(vec![bound("x"), bound("y"), bound("z")])
    );
}

#[test]
fn simple_expressions_are_decided_at_once() {
    assert_eq!(Expression::equal(literal("a"), literal("a")), truth(true));
    assert_eq!(
        Expression::equal(literal("a"), literal("b")),
        equal(literal("a"), literal("b"))
    );
    assert_eq!(
        Expression::equal(Expression::NamedNode(node("a")), Expression::NamedNode(node("b"))),
        truth(false)
    );
    assert_eq!(Expression::negate(truth(true)), truth(false));
    assert_eq!(Expression::negate(Expression::Not(Box::new(bound("x")))), bound("x"));
    assert_eq!(
        Expression::negate(Expression::Not(Box::new(is("x")))),
        Expression::And(vec![is("x")])
    );
    assert_eq!(Expression::if_cond(literal(""), is("x"), is("y")), is("y"));
    assert_eq!(Expression::exists_pattern(GraphPattern::empty()), truth(false));
    assert_eq!(Expression::exists_pattern(GraphPattern::empty_singleton()), truth(true));
}

#[test]
fn trivial_joins_disappear() {
    let plan = quad("x", "p", "y");
    let one = GraphPattern::empty_singleton;
    assert_eq!(GraphPattern::join(one(), plan.clone(), no_keys()), plan);
    assert_eq!(GraphPattern::join(plan.clone(), one(), no_keys()), plan);
    assert_eq!(
        GraphPattern::join(plan.clone(), GraphPattern::empty(), no_keys()),
        GraphPattern::empty()
    );
    assert_eq!(GraphPattern::lateral(one(), plan.clone()), plan);
    assert_eq!(
        GraphPattern::left_join(plan.clone(), GraphPattern::empty(), truth(true), no_left_keys()),
        plan
    );
    assert_eq!(
        GraphPattern::left_join(plan.clone(), quad("x", "q", "z"), truth(false), no_left_keys()),
        plan
    );
    assert_eq!(
        GraphPattern::minus(plan.clone(), GraphPattern::empty(), no_minus_keys()),
        plan
    );
    assert_eq!(
        GraphPattern::union_all(vec![GraphPattern::empty(), plan.clone()]),
        GraphPattern::Union { inner: vec![plan.clone()] }
    );
    assert_eq!(GraphPattern::union_all(vec![]), GraphPattern::empty());
    assert_eq!(GraphPattern::filter(plan.clone(), truth(true)), plan);
    assert_eq!(GraphPattern::filter(plan, truth(false)), GraphPattern::empty());
}

#[test]
fn tables_lose_the_columns_that_no_row_reaches() {
    let a = GroundTerm::NamedNode(node("a"));
    assert_eq!(
        GraphPattern::values(vec![var("x"), var("y")], vec![vec![Some(a.clone())]]),
        GraphPattern::Values { variables: vec![var("x")], bindings: vec![vec![Some(a)]] }
    );
    assert!(GraphPattern::Values { variables: vec![var("x")], bindings: vec![vec![None]] }
        .is_empty_singleton());
    assert!(GraphPattern::Values { variables: vec![var("x")], bindings: vec![] }.is_empty());
}

#[test]
fn an_empty_group_is_kept_unless_it_has_keys() {
    let count = || {
        vec![(
            var("n"),
            sparopt::AggregateExpression::CountSolutions { distinct: false },
        )]
    };
    assert!(matches!(
        GraphPattern::group(GraphPattern::empty(), vec![], count()),
        GraphPattern::Group { .. }
    ));
    assert_eq!(
        GraphPattern::group(GraphPattern::empty(), vec![var("x")], count()),
        GraphPattern::empty()
    );
}

#[test]
fn patterns_give_types_to_their_variables() {
    let types = infer_graph_pattern_types(&quad("s", "p", "o"), no_types());
    assert_eq!(types.get(&var("s")), VariableType::of_subject());
    assert_eq!(types.get(&var("o")), VariableType::of_term());
    assert_eq!(types.get(&var("other")), VariableType::of_undef());
    let optional = GraphPattern::LeftJoin {
        left: Box::new(quad("s", "p", "o")),
        right: Box::new(quad("s", "q", "z")),
        expression: truth(true),
        algorithm: no_left_keys(),
    };
    let types = infer_graph_pattern_types(&optional, no_types());
    assert!(!types.get(&var("s")).undef);
    assert!(types.get(&var("z")).undef);
    assert!(types.get(&var("z")).literal);
}

#[test]
fn expressions_have_types() {
    let types = infer_graph_pattern_types(&quad("s", "p", "o"), no_types());
    assert_eq!(infer_expression_type(&literal("a"), &types), VariableType::of_literal());
    assert_eq!(infer_expression_type(&is("s"), &types), VariableType::of_subject());
    assert_eq!(infer_expression_type(&is("other"), &types), VariableType::of_undef());
    let uuid = Expression::FunctionCall(Function::Uuid, vec![]);
    assert_eq!(infer_expression_type(&uuid, &types), VariableType::of_named_node());
    assert!(infer_expression_type(&equal(is("s"), is("o")), &types).undef);
}

#[test]
fn joins_have_the_common_variables_as_keys() {
    let left = infer_graph_pattern_types(&quad("x", "p", "y"), no_types());
    let right = infer_graph_pattern_types(&quad("y", "p", "z"), no_types());
    let apart = infer_graph_pattern_types(&quad("u", "p", "v"), no_types());
    assert!(has_common_variables(&left, &right, &no_types()));
    assert!(!has_common_variables(&left, &apart, &no_types()));
    assert_eq!(join_key_variables(&left, &right, &no_types()), vec![var("y")]);
    assert_eq!(join_key_variables(&left, &apart, &no_types()), Vec::<Variable>::new());
}

#[test]
fn normalization_uses_types() {
    let types = infer_graph_pattern_types(&quad("s", "p", "o"), no_types());
    assert_eq!(normalize_expression(bound("s"), &types), truth(true));
    assert_eq!(normalize_expression(bound("other"), &types), truth(false));
    assert_eq!(
        normalize_expression(equal(is("s"), is("o")), &types),
        Expression::SameTerm(Box::new(is("s")), Box::new(is("o")))
    );
    let open = infer_graph_pattern_types(&quad("o", "p", "o2"), types);
    assert_eq!(
        normalize_expression(equal(is("o2"), literal("a")), &open),
        equal(is("o2"), literal("a"))
    );
}

#[test]
fn normalization_simplifies() {
    let plan = GraphPattern::Filter {
        expression: bound("x"),
        inner: Box::new(join(quad("x", "p", "y"), GraphPattern::empty_singleton())),
    };
    assert_eq!(normalize_pattern(plan, &no_types()), quad("x", "p", "y"));
    let nothing = GraphPattern::Filter {
        expression: bound("z"),
        inner: Box::new(quad("x", "p", "y")),
    };
    assert_eq!(normalize_pattern(nothing, &no_types()), GraphPattern::empty());
}

#[test]
fn normalization_discards_the_order_of_joins() {
    let (a, b, c) = (quad("x", "p", "y"), quad("y", "q", "z"), quad("z", "p", "x"));
    let keyed = |left: GraphPattern, right: GraphPattern, key: &str| GraphPattern::Join {
        left: Box::new(left),
        right: Box::new(right),
        algorithm: JoinAlgorithm::HashBuildLeftProbeRight { keys: vec![var(key)] },
    };
    let expected = normalize_pattern(join(join(a.clone(), b.clone()), c.clone()), &no_types());
    assert_eq!(expected.used_variables().len(), 3);
    for plan in [
        keyed(c.clone(), keyed(a.clone(), b.clone(), "y"), "x"),
        keyed(keyed(a.clone(), b.clone(), "y"), c.clone(), "z"),
        join(c.clone(), join(b.clone(), a.clone())),
        join(join(c.clone(), a.clone()), b.clone()),
    ] {
        assert_eq!(normalize_pattern(plan, &no_types()), expected);
    }
    let union = GraphPattern::Union { inner: vec![a.clone(), quad("x", "r", "y")] };
    match normalize_pattern(join(union.clone(), b.clone()), &no_types()) {
        GraphPattern::Join { left, right, .. } => {
            assert_eq!(*left, b);
            assert_eq!(*right, union);
        }
        other => panic!("{other:?}"),
    }
}

#[test]
fn joins_are_flattened_and_rebuilt() {
    let mut factors = Vec::new();
    let plan = join(
        join(quad("a", "p", "b"), quad("b", "p", "c")),
        join(quad("c", "p", "d"), quad("d", "p", "e")),
    );
    flatten_inner_join_factors(plan, &mut factors);
    assert_eq!(
        factors,
        vec![quad("a", "p", "b"), quad("b", "p", "c"), quad("c", "p", "d"), quad("d", "p", "e")]
    );
    assert_eq!(join_all_factors(vec![]), None);
    assert_eq!(join_all_factors(vec![quad("a", "p", "b")]), Some(quad("a", "p", "b")));
    assert_eq!(
        join_all_factors(vec![quad("a", "p", "b"), quad("b", "p", "c")]),
        Some(join(quad("a", "p", "b"), quad("b", "p", "c")))
    );
}

#[test]
fn what_all_branches_share_is_factored_out() {
    let shared = quad("x", "p", "y");
    let plan = factor_common_join_factors_from_union(vec![
        join(shared.clone(), quad("x", "q", "z")),
        join(quad("x", "r", "z"), shared.clone()),
    ]);
    assert_eq!(
        plan,
        join(
            GraphPattern::Union { inner: vec![quad("x", "q", "z"), quad("x", "r", "z")] },
            shared
        )
    );
}

#[test]
fn filters_move_to_the_side_that_binds_their_variables() {
    let filter = equal(is("z"), literal("a"));
    assert_eq!(
        push_filters(
            join(quad("x", "p", "y"), quad("x", "q", "z")),
            vec![filter.clone()],
            &no_types()
        ),
        join(
            quad("x", "p", "y"),
            GraphPattern::Filter { expression: filter, inner: Box::new(quad("x", "q", "z")) }
        )
    );
}

#[test]
fn filters_stay_above_projections() {
    let filter = Expression::Exists(Box::new(quad("x", "q", "y")));
    let below = GraphPattern::Project {
        inner: Box::new(quad("x", "p", "y")),
        variables: vec![var("x")],
    };
    assert_eq!(
        push_filters(below.clone(), vec![filter.clone()], &no_types()),
        GraphPattern::Filter { expression: filter, inner: Box::new(below) }
    );
}

#[test]
fn filters_stay_above_remote_calls() {
    let call = GraphPattern::Service {
        name: node("endpoint").into(),
        inner: Box::new(quad("x", "p", "y")),
        silent: true,
    };
    assert_eq!(
        push_filters(call.clone(), vec![bound("x")], &no_types()),
        GraphPattern::Filter { expression: bound("x"), inner: Box::new(call) }
    );
}

#[test]
fn remote_calls_are_left_alone() {
    let call = GraphPattern::Service {
        name: node("endpoint").into(),
        inner: Box::new(join(GraphPattern::empty_singleton(), quad("x", "p", "y"))),
        silent: false,
    };
    assert_eq!(Optimizer::optimize_graph_pattern(call.clone()), call);
}

#[test]
fn an_atom_is_joined_once() {
    let plan = join(
        join(quad("x", "p", "y"), quad("y", "p", "z")),
        join(quad("x", "p", "y"), quad("x", "p", "y")),
    );
    let mut factors = Vec::new();
    let optimized = Optimizer::optimize_graph_pattern(plan);
    match &optimized {
        GraphPattern::Lateral { left, right } => {
            assert_eq!(**left, quad("x", "p", "y"));
            assert_eq!(**right, quad("y", "p", "z"));
        }
        _ => {
            flatten_inner_join_factors(optimized, &mut factors);
            assert_eq!(factors.len(), 2);
        }
    }
}

#[test]
fn an_optimized_plan_uses_no_new_variables() {
    let plan = GraphPattern::Filter {
        expression: equal(is("a"), is("d")),
        inner: Box::new(join(
            join(quad("a", "p", "b"), quad("c", "q", "d")),
            quad("b", "r", "c"),
        )),
    };
    let names = |plan: &GraphPattern| {
        let mut names: Vec<String> = plan.used_variables().iter().map(|v| v.name.clone()).collect();
        names.sort();
        names.dedup();
        names
    };
    let before = names(&plan);
    let after = names(&Optimizer::optimize_graph_pattern(plan));
    assert_eq!(before, after);
}

#[test]
fn repeated_paths_without_a_bound_end_do_not_loop() {
    let path = GraphPattern::Path {
        subject: var("x").into(),
        path: PropertyPathExpression::OneOrMore(Box::new(path("p"))),
        object: var("y").into(),
        graph_name: None,
    };
    let entry = infer_graph_pattern_types(&quad("u", "p", "v"), no_types());
    let limits = Limits::default();
    let fits = |types: &VariableTypes, size: usize| {
        sparopt::for_loop::is_fit_for_for_loop_join(&path, &no_types(), types, size, &limits)
    };
    assert!(!fits(&entry, 1));
    let entry = infer_graph_pattern_types(&quad("u", "p", "x"), no_types());
    assert!(fits(&entry, 16));
    assert!(!fits(&entry, 17));
}

#[test]
fn a_language_tag_tells_strings_apart() {
    let tagged = Literal::new_language_tagged_literal_unchecked("chat", "fr");
    assert_eq!(tagged.value, "chat");
    assert_eq!(tagged.language, Some("fr".to_owned()));
    assert_eq!(
        tagged.datatype,
        NamedNode::new_unchecked("http://www.w3.org/1999/02/22-rdf-syntax-ns#langString")
    );
    assert_ne!(tagged, Literal::new_simple_literal("chat"));
}

#[test]
fn exists_with_rand_is_not_reused_for_every_row() {
    let decimal = NamedNode::new_unchecked("http://www.w3.org/2001/XMLSchema#decimal");
    let integer = NamedNode::new_unchecked("http://www.w3.org/2001/XMLSchema#integer");
    let half = Expression::Literal(Literal::new_typed_literal("0.5", decimal));
    let rand = Expression::FunctionCall(Function::Rand, Vec::new());
    let test = Expression::Exists(Box::new(GraphPattern::Filter {
        expression: Expression::Less(Box::new(rand), Box::new(half)),
        inner: Box::new(GraphPattern::empty_singleton()),
    }));
    assert_eq!(normalize_expression(test.clone(), &no_types()), test);

    let rows = GraphPattern::Values {
        variables: vec![var("i")],
        bindings: (1..=256)
            .map(|index| {
                let number = Literal::new_typed_literal(&format!("{index}"), integer.clone());
                vec![Some(GroundTerm::Literal(number))]
            })
            .collect(),
    };
    let types = infer_graph_pattern_types(&rows, no_types());
    assert_eq!(normalize_expression(test.clone(), &types), test);
    let plan = GraphPattern::Filter {
        expression: test,
        inner: Box::new(rows),
    };
    assert_eq!(Optimizer::optimize_graph_pattern(plan.clone()), plan);
}

#[test]
fn ill_typed_constants_are_only_compared() {
    let boolean = NamedNode::new_unchecked("http://www.w3.org/2001/XMLSchema#boolean");
    let double = NamedNode::new_unchecked("http://www.w3.org/2001/XMLSchema#double");
    let types = infer_graph_pattern_types(&quad("s", "p", "o"), no_types());
    for constant in [
        Literal::new_typed_literal("maybe", boolean),
        Literal::new_typed_literal("NaN", double),
    ] {
        let test = Expression::Not(Box::new(equal(is("o"), Expression::Literal(constant))));
        assert_eq!(normalize_expression(test.clone(), &types), test);
    }
}
