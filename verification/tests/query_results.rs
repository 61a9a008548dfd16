//! Queries have the same answers with and without the optimizer.

use sparopt::{
    AggregateExpression, AggregateFunction, Expression, GraphPattern, GroundTerm,
    GroundTermPattern, JoinAlgorithm, LeftJoinAlgorithm, Literal, Limits, MinusAlgorithm,
    NamedNode, NamedNodePattern, Optimizer, OrderExpression, PropertyPathExpression, Variable,
};
use spargebra::algebra;
use spargebra::term;
use spargebra::{Query, SparqlParser};
use std::collections::BTreeMap;

const XSD: &str = "http://www.w3.org/2001/XMLSchema#";

/// An RDF term.
#[derive(Debug, Clone, PartialEq, Eq, PartialOrd, Ord)]
enum Value {
    Iri(String),
    Literal { value: String, datatype: String },
}

type Row = BTreeMap<String, Value>;

/// A subject, a predicate, an object and the name of a graph, if it has one.
type Quad = (Value, Value, Value, Option<Value>);

fn iri(name: &str) -> Value {
    Value::Iri(format!("http://example.com/{name}"))
}

fn typed(value: &str, datatype: &str) -> Value {
    Value::Literal {
        value: value.to_owned(),
        datatype: format!("{XSD}{datatype}"),
    }
}

fn integer(value: i64) -> Value {
    typed(&value.to_string(), "integer")
}

fn boolean(value: bool) -> Value {
    typed(if value { "true" } else { "false" }, "boolean")
}

fn number(value: &Value) -> Option<i64> {
    match value {
        Value::Literal { value, datatype } if *datatype == format!("{XSD}integer") => {
            value.parse().ok()
        }
        _ => None,
    }
}

fn truth(value: &Option<Value>) -> Option<bool> {
    match value {
        Some(Value::Literal { value, datatype }) => {
            if *datatype == format!("{XSD}boolean") {
                match value.as_str() {
                    "true" | "1" => Some(true),
                    "false" | "0" => Some(false),
                    _ => None,
                }
            } else if *datatype == format!("{XSD}string") {
                Some(!value.is_empty())
            } else if *datatype == format!("{XSD}integer") {
                Some(value != "0")
            } else {
                None
            }
        }
        _ => None,
    }
}

fn of_node(node: &NamedNode) -> Value {
    Value::Iri(node.iri.clone())
}

fn of_literal(literal: &Literal) -> Value {
    Value::Literal {
        value: literal.value.clone(),
        datatype: literal.datatype.iri.clone(),
    }
}

fn of_ground(term: &GroundTerm) -> Value {
    match term {
        GroundTerm::NamedNode(node) => of_node(node),
        GroundTerm::Literal(literal) => of_literal(literal),
        GroundTerm::Triple(_) => panic!("no triple terms here"),
    }
}

/// The row with a variable bound, unless it is bound to something else.
fn bind(row: &Row, variable: &str, value: &Value) -> Option<Row> {
    match row.get(variable) {
        Some(other) if other != value => None,
        _ => {
            let mut row = row.clone();
            row.insert(variable.to_owned(), value.clone());
            Some(row)
        }
    }
}

fn bind_term(row: &Row, pattern: &GroundTermPattern, value: &Value) -> Option<Row> {
    match pattern {
        GroundTermPattern::NamedNode(node) => (of_node(node) == *value).then_some(row.clone()),
        GroundTermPattern::Literal(literal) => {
            (of_literal(literal) == *value).then_some(row.clone())
        }
        GroundTermPattern::Variable(variable) => bind(row, &variable.name, value),
        GroundTermPattern::Triple(_) => panic!("no triple terms here"),
    }
}

fn bind_node(row: &Row, pattern: &NamedNodePattern, value: &Value) -> Option<Row> {
    match pattern {
        NamedNodePattern::NamedNode(node) => (of_node(node) == *value).then_some(row.clone()),
        NamedNodePattern::Variable(variable) => bind(row, &variable.name, value),
    }
}

fn bind_graph(row: &Row, pattern: &Option<NamedNodePattern>, graph: &Option<Value>) -> Option<Row> {
    match (pattern, graph) {
        (None, None) => Some(row.clone()),
        (Some(pattern), Some(graph)) => bind_node(row, pattern, graph),
        _ => None,
    }
}

fn compatible(left: &Row, right: &Row) -> bool {
    left.iter()
        .all(|(variable, value)| right.get(variable).is_none_or(|other| other == value))
}

fn merge(left: &Row, right: &Row) -> Row {
    let mut row = left.clone();
    row.extend(right.iter().map(|(k, v)| (k.clone(), v.clone())));
    row
}

fn joined(left: &[Row], right: &[Row]) -> Vec<Row> {
    let mut rows = Vec::new();
    for l in left {
        for r in right {
            if compatible(l, r) {
                rows.push(merge(l, r));
            }
        }
    }
    rows
}

/// The pairs that a path connects in the default graph, each of them once.
fn pairs(data: &[Quad], path: &PropertyPathExpression) -> Vec<(Value, Value)> {
    let mut result = match path {
        PropertyPathExpression::NamedNode(node) => data
            .iter()
            .filter(|quad| quad.1 == of_node(node) && quad.3.is_none())
            .map(|quad| (quad.0.clone(), quad.2.clone()))
            .collect(),
        PropertyPathExpression::Reverse(inner) => pairs(data, inner)
            .into_iter()
            .map(|(start, end)| (end, start))
            .collect(),
        PropertyPathExpression::ZeroOrMore(inner) => {
            let mut all = closure(pairs(data, inner));
            for quad in data.iter().filter(|quad| quad.3.is_none()) {
                all.push((quad.0.clone(), quad.0.clone()));
                all.push((quad.2.clone(), quad.2.clone()));
            }
            all
        }
        PropertyPathExpression::OneOrMore(inner) => closure(pairs(data, inner)),
        _ => panic!("no such path here"),
    };
    result.sort();
    result.dedup();
    result
}

fn closure(step: Vec<(Value, Value)>) -> Vec<(Value, Value)> {
    let mut all = step.clone();
    loop {
        let mut next = all.clone();
        for (a, b) in &all {
            for (c, d) in &step {
                if b == c {
                    next.push((a.clone(), d.clone()));
                }
            }
        }
        next.sort();
        next.dedup();
        if next.len() == all.len() {
            return next;
        }
        all = next;
    }
}

fn value(data: &[Quad], expression: &Expression, row: &Row) -> Option<Value> {
    match expression {
        Expression::NamedNode(node) => Some(of_node(node)),
        Expression::Literal(literal) => Some(of_literal(literal)),
        Expression::Variable(variable) => row.get(&variable.name).cloned(),
        Expression::And(inner) => {
            let truths: Vec<_> = inner.iter().map(|e| truth(&value(data, e, row))).collect();
            if truths.contains(&Some(false)) {
                Some(boolean(false))
            } else if truths.contains(&None) {
                None
            } else {
                Some(boolean(true))
            }
        }
        Expression::Or(inner) => {
            let truths: Vec<_> = inner.iter().map(|e| truth(&value(data, e, row))).collect();
            if truths.contains(&Some(true)) {
                Some(boolean(true))
            } else if truths.contains(&None) {
                None
            } else {
                Some(boolean(false))
            }
        }
        Expression::Not(inner) => truth(&value(data, inner, row)).map(|t| boolean(!t)),
        Expression::Equal(left, right) | Expression::SameTerm(left, right) => {
            Some(boolean(value(data, left, row)? == value(data, right, row)?))
        }
        Expression::Greater(left, right) => Some(boolean(
            number(&value(data, left, row)?)? > number(&value(data, right, row)?)?,
        )),
        Expression::Less(left, right) => Some(boolean(
            number(&value(data, left, row)?)? < number(&value(data, right, row)?)?,
        )),
        Expression::Add(left, right) => Some(integer(
            number(&value(data, left, row)?)? + number(&value(data, right, row)?)?,
        )),
        Expression::Exists(inner) => Some(boolean(!eval(data, inner, row).is_empty())),
        Expression::Bound(variable) => Some(boolean(row.contains_key(&variable.name))),
        Expression::If(condition, then_case, else_case) => {
            if truth(&value(data, condition, row))? {
                value(data, then_case, row)
            } else {
                value(data, else_case, row)
            }
        }
        Expression::Coalesce(inner) => inner.iter().find_map(|e| value(data, e, row)),
        _ => panic!("no such expression here"),
    }
}

fn holds(data: &[Quad], expression: &Expression, row: &Row) -> bool {
    truth(&value(data, expression, row)) == Some(true)
}

/// The solutions of a plan that extend a row.
fn eval(data: &[Quad], plan: &GraphPattern, input: &Row) -> Vec<Row> {
    match plan {
        GraphPattern::QuadPattern {
            subject,
            predicate,
            object,
            graph_name,
        } => data
            .iter()
            .filter_map(|(s, p, o, g)| {
                let row = bind_term(input, subject, s)?;
                let row = bind_node(&row, predicate, p)?;
                let row = bind_term(&row, object, o)?;
                bind_graph(&row, graph_name, g)
            })
            .collect(),
        GraphPattern::Path {
            subject,
            path,
            object,
            graph_name,
        } => {
            assert!(graph_name.is_none());
            pairs(data, path)
                .iter()
                .filter_map(|(start, end)| {
                    let row = bind_term(input, subject, start)?;
                    bind_term(&row, object, end)
                })
                .collect()
        }
        GraphPattern::Graph { .. } | GraphPattern::Service { .. } => {
            panic!("no such pattern here")
        }
        GraphPattern::Values {
            variables,
            bindings,
        } => bindings
            .iter()
            .filter_map(|cells| {
                let mut row = input.clone();
                for (variable, cell) in variables.iter().zip(cells) {
                    if let Some(term) = cell {
                        row = bind(&row, &variable.name, &of_ground(term))?;
                    }
                }
                Some(row)
            })
            .collect(),
        GraphPattern::Join { left, right, .. } => {
            joined(&eval(data, left, input), &eval(data, right, input))
        }
        GraphPattern::Lateral { left, right } => eval(data, left, input)
            .iter()
            .flat_map(|row| eval(data, right, row))
            .collect(),
        GraphPattern::LeftJoin {
            left,
            right,
            expression,
            ..
        } => {
            let others = eval(data, right, input);
            eval(data, left, input)
                .into_iter()
                .flat_map(|row| {
                    let mut matches = joined(&[row.clone()], &others);
                    matches.retain(|m| holds(data, expression, m));
                    if matches.is_empty() {
                        vec![row]
                    } else {
                        matches
                    }
                })
                .collect()
        }
        GraphPattern::Minus { left, right, .. } => {
            let others = eval(data, right, input);
            let mut rows = eval(data, left, input);
            rows.retain(|row| {
                !others.iter().any(|other| {
                    compatible(row, other)
                        && row
                            .keys()
                            .any(|v| other.contains_key(v) && !input.contains_key(v))
                })
            });
            rows
        }
        GraphPattern::Filter { expression, inner } => {
            let mut rows = eval(data, inner, input);
            rows.retain(|row| holds(data, expression, row));
            rows
        }
        GraphPattern::Union { inner } => {
            inner.iter().flat_map(|p| eval(data, p, input)).collect()
        }
        GraphPattern::Extend {
            inner,
            variable,
            expression,
        } => eval(data, inner, input)
            .into_iter()
            .filter_map(|row| match value(data, expression, &row) {
                Some(value) => bind(&row, &variable.name, &value),
                None => Some(row),
            })
            .collect(),
        GraphPattern::OrderBy { inner, .. } => eval(data, inner, input),
        GraphPattern::Project { inner, variables } => eval(data, inner, input)
            .into_iter()
            .map(|mut row| {
                row.retain(|name, _| {
                    input.contains_key(name) || variables.iter().any(|v| v.name == *name)
                });
                row
            })
            .collect(),
        GraphPattern::Distinct { inner } | GraphPattern::Reduced { inner } => {
            let mut rows = eval(data, inner, input);
            rows.sort();
            rows.dedup();
            rows
        }
        GraphPattern::Slice {
            inner,
            start,
            length,
        } => eval(data, inner, input)
            .into_iter()
            .skip(*start)
            .take(length.unwrap_or(usize::MAX))
            .collect(),
        GraphPattern::Group {
            inner,
            variables,
            aggregates,
        } => {
            let mut groups: BTreeMap<Row, Vec<Row>> = BTreeMap::new();
            if variables.is_empty() {
                groups.insert(Row::new(), Vec::new());
            }
            for row in eval(data, inner, input) {
                let mut key = row.clone();
                key.retain(|name, _| variables.iter().any(|v| v.name == *name));
                groups.entry(key).or_default().push(row);
            }
            groups
                .into_iter()
                .map(|(mut key, rows)| {
                    for (variable, aggregate) in aggregates {
                        if let Some(value) = fold(data, aggregate, &rows) {
                            key.insert(variable.name.clone(), value);
                        }
                    }
                    merge(input, &key)
                })
                .collect()
        }
    }
}

fn fold(data: &[Quad], aggregate: &AggregateExpression, rows: &[Row]) -> Option<Value> {
    match aggregate {
        AggregateExpression::CountSolutions { .. } => Some(integer(rows.len() as i64)),
        AggregateExpression::FunctionCall { name, expr, .. } => {
            let values = rows.iter().filter_map(|row| value(data, expr, row));
            match name {
                AggregateFunction::Min => values.min(),
                AggregateFunction::Max => values.max(),
                _ => panic!("no such aggregate here"),
            }
        }
    }
}

/// The solutions of a query in a fixed order.
fn answer(data: &[Quad], plan: &GraphPattern) -> Vec<Row> {
    let mut rows = eval(data, plan, &Row::new());
    rows.sort();
    rows
}

/// The plan of a parsed query.
fn plan(query: &str) -> GraphPattern {
    match SparqlParser::new().parse_query(query).unwrap() {
        Query::Select { pattern, .. } => plan_of(&pattern, &None),
        _ => panic!("expected a SELECT query"),
    }
}

fn variable(variable: &term::Variable) -> Variable {
    Variable::new_unchecked(variable.as_str())
}

fn variables(all: &[term::Variable]) -> Vec<Variable> {
    all.iter().map(variable).collect()
}

fn named_node(node: &term::NamedNode) -> NamedNode {
    NamedNode::new_unchecked(node.as_str())
}

fn literal(literal: &term::Literal) -> Literal {
    Literal::new_typed_literal(
        literal.value(),
        NamedNode::new_unchecked(literal.datatype().as_str()),
    )
}

fn node_pattern(pattern: &term::NamedNodePattern) -> NamedNodePattern {
    match pattern {
        term::NamedNodePattern::NamedNode(node) => named_node(node).into(),
        term::NamedNodePattern::Variable(name) => variable(name).into(),
    }
}

fn term_pattern(pattern: &term::TermPattern) -> GroundTermPattern {
    match pattern {
        term::TermPattern::NamedNode(node) => named_node(node).into(),
        term::TermPattern::Literal(value) => literal(value).into(),
        term::TermPattern::Variable(name) => variable(name).into(),
        term::TermPattern::BlankNode(node) => Variable::new_unchecked(node.as_str()).into(),
        term::TermPattern::Triple(_) => panic!("no triple terms here"),
    }
}

fn no_keys() -> JoinAlgorithm {
    JoinAlgorithm::HashBuildLeftProbeRight { keys: Vec::new() }
}

fn path_of(path: &algebra::PropertyPathExpression) -> PropertyPathExpression {
    match path {
        algebra::PropertyPathExpression::NamedNode(node) => {
            PropertyPathExpression::NamedNode(named_node(node))
        }
        algebra::PropertyPathExpression::Reverse(inner) => {
            PropertyPathExpression::Reverse(Box::new(path_of(inner)))
        }
        algebra::PropertyPathExpression::ZeroOrMore(inner) => {
            PropertyPathExpression::ZeroOrMore(Box::new(path_of(inner)))
        }
        algebra::PropertyPathExpression::OneOrMore(inner) => {
            PropertyPathExpression::OneOrMore(Box::new(path_of(inner)))
        }
        _ => panic!("no such path here"),
    }
}

fn plan_of(pattern: &algebra::GraphPattern, graph: &Option<NamedNodePattern>) -> GraphPattern {
    match pattern {
        algebra::GraphPattern::Bgp { patterns } => patterns
            .iter()
            .map(|triple| GraphPattern::QuadPattern {
                subject: term_pattern(&triple.subject),
                predicate: node_pattern(&triple.predicate),
                object: term_pattern(&triple.object),
                graph_name: graph.clone(),
            })
            .reduce(|left, right| GraphPattern::join(left, right, no_keys()))
            .unwrap_or_else(GraphPattern::empty_singleton),
        algebra::GraphPattern::Path {
            subject,
            path,
            object,
        } => GraphPattern::Path {
            subject: term_pattern(subject),
            path: path_of(path),
            object: term_pattern(object),
            graph_name: graph.clone(),
        },
        algebra::GraphPattern::Join { left, right } => {
            GraphPattern::join(plan_of(left, graph), plan_of(right, graph), no_keys())
        }
        algebra::GraphPattern::LeftJoin {
            left,
            right,
            expression,
        } => GraphPattern::left_join(
            plan_of(left, graph),
            plan_of(right, graph),
            expression
                .as_ref()
                .map_or(Expression::boolean(true), |e| expression_of(e, graph)),
            LeftJoinAlgorithm::HashBuildRightProbeLeft { keys: Vec::new() },
        ),
        algebra::GraphPattern::Filter { expr, inner } => {
            GraphPattern::filter(plan_of(inner, graph), expression_of(expr, graph))
        }
        algebra::GraphPattern::Union { left, right } => {
            GraphPattern::union_all(vec![plan_of(left, graph), plan_of(right, graph)])
        }
        algebra::GraphPattern::Minus { left, right } => GraphPattern::minus(
            plan_of(left, graph),
            plan_of(right, graph),
            MinusAlgorithm::HashBuildRightProbeLeft { keys: Vec::new() },
        ),
        algebra::GraphPattern::Graph { name, inner } => plan_of(inner, &Some(node_pattern(name))),
        algebra::GraphPattern::Extend {
            inner,
            variable: name,
            expression,
        } => GraphPattern::extend(
            plan_of(inner, graph),
            variable(name),
            expression_of(expression, graph),
        ),
        algebra::GraphPattern::Values {
            variables: names,
            bindings,
        } => GraphPattern::values(
            variables(names),
            bindings
                .iter()
                .map(|row| {
                    row.iter()
                        .map(|cell| {
                            cell.as_ref().map(|term| match term {
                                term::GroundTerm::NamedNode(node) => {
                                    GroundTerm::NamedNode(named_node(node))
                                }
                                term::GroundTerm::Literal(value) => {
                                    GroundTerm::Literal(literal(value))
                                }
                                term::GroundTerm::Triple(_) => panic!("no triple terms here"),
                            })
                        })
                        .collect()
                })
                .collect(),
        ),
        algebra::GraphPattern::OrderBy { inner, expression } => GraphPattern::order_by(
            plan_of(inner, graph),
            expression
                .iter()
                .map(|criterion| match criterion {
                    algebra::OrderExpression::Asc(e) => {
                        OrderExpression::Asc(expression_of(e, graph))
                    }
                    algebra::OrderExpression::Desc(e) => {
                        OrderExpression::Desc(expression_of(e, graph))
                    }
                })
                .collect(),
        ),
        algebra::GraphPattern::Project {
            inner,
            variables: names,
        } => GraphPattern::project(plan_of(inner, graph), variables(names)),
        algebra::GraphPattern::Distinct { inner } => GraphPattern::distinct(plan_of(inner, graph)),
        algebra::GraphPattern::Slice {
            inner,
            start,
            length,
        } => GraphPattern::Slice {
            inner: Box::new(plan_of(inner, graph)),
            start: *start,
            length: *length,
        },
        algebra::GraphPattern::Group {
            inner,
            variables: names,
            aggregates,
        } => GraphPattern::Group {
            inner: Box::new(plan_of(inner, graph)),
            variables: variables(names),
            aggregates: aggregates
                .iter()
                .map(|(name, aggregate)| (variable(name), aggregate_of(aggregate, graph)))
                .collect(),
        },
        _ => panic!("no such pattern here"),
    }
}

fn aggregate_of(
    aggregate: &algebra::AggregateExpression,
    graph: &Option<NamedNodePattern>,
) -> AggregateExpression {
    match aggregate {
        algebra::AggregateExpression::CountSolutions { distinct } => {
            AggregateExpression::CountSolutions {
                distinct: *distinct,
            }
        }
        algebra::AggregateExpression::FunctionCall {
            name: algebra::AggregateFunction::Min,
            expr,
            distinct,
        } => AggregateExpression::FunctionCall {
            name: AggregateFunction::Min,
            expr: Box::new(expression_of(expr, graph)),
            distinct: *distinct,
        },
        _ => panic!("no such aggregate here"),
    }
}

fn expression_of(
    expression: &algebra::Expression,
    graph: &Option<NamedNodePattern>,
) -> Expression {
    let of = |inner: &algebra::Expression| Box::new(expression_of(inner, graph));
    match expression {
        algebra::Expression::NamedNode(node) => Expression::NamedNode(named_node(node)),
        algebra::Expression::Literal(value) => Expression::Literal(literal(value)),
        algebra::Expression::Variable(name) => Expression::Variable(variable(name)),
        algebra::Expression::And(left, right) => {
            Expression::and_all(vec![*of(left), *of(right)])
        }
        algebra::Expression::Or(left, right) => Expression::or_all(vec![*of(left), *of(right)]),
        algebra::Expression::Not(inner) => Expression::Not(of(inner)),
        algebra::Expression::Equal(left, right) => Expression::Equal(of(left), of(right)),
        algebra::Expression::Greater(left, right) => Expression::Greater(of(left), of(right)),
        algebra::Expression::Less(left, right) => Expression::Less(of(left), of(right)),
        algebra::Expression::Add(left, right) => Expression::Add(of(left), of(right)),
        algebra::Expression::Bound(name) => Expression::Bound(variable(name)),
        algebra::Expression::Exists(inner) => {
            Expression::Exists(Box::new(plan_of(inner, graph)))
        }
        _ => panic!("no such expression here"),
    }
}

/// The answers without and with the optimizer.
fn answers(data: &[Quad], query: &str) -> (Vec<Row>, Vec<Row>) {
    let plan = plan(query);
    let before = answer(data, &plan);
    let after = answer(data, &Optimizer::optimize_graph_pattern(plan));
    (before, after)
}

fn column(rows: &[Row], variable: &str) -> Vec<Option<String>> {
    rows.iter()
        .map(|row| {
            row.get(variable).map(|value| match value {
                Value::Iri(iri) => format!("<{iri}>"),
                Value::Literal { value, .. } => value.clone(),
            })
        })
        .collect()
}

#[test]
fn optimizer_preserves_implicit_empty_group_row_for_count() {
    let (unoptimized, optimized) =
        answers(&[], "SELECT (COUNT(*) AS ?v) WHERE { FILTER(false) }");
    assert_eq!(
        optimized, unoptimized,
        "optimizer must preserve the implicit empty group row for aggregate queries"
    );
    assert_eq!(column(&unoptimized, "v"), vec![Some("0".to_owned())]);
}

#[test]
fn optimizer_preserves_implicit_empty_group_row_for_min() {
    let (unoptimized, optimized) = answers(&[], "SELECT (MIN(?x) AS ?v) WHERE { FILTER(false) }");
    assert_eq!(
        optimized, unoptimized,
        "optimizer must preserve the implicit empty group row for aggregate queries"
    );
    assert_eq!(column(&unoptimized, "v"), vec![None]);
}

#[test]
fn optimizer_keeps_group_by_empty_result_empty() {
    let (unoptimized, optimized) = answers(
        &[],
        "SELECT ?x (COUNT(*) AS ?v) WHERE { FILTER(false) } GROUP BY ?x",
    );
    assert_eq!(optimized, unoptimized);
    assert!(unoptimized.is_empty());
}

fn scope_data() -> Vec<Quad> {
    vec![
        (iri("a"), iri("p"), integer(1), None),
        (iri("b"), iri("p"), integer(2), None),
        (iri("c"), iri("p"), integer(3), None),
        (iri("a"), iri("p"), integer(999), Some(iri("g1"))),
    ]
}

#[test]
fn optimizer_preserves_not_exists_scope_across_subquery_projection() {
    let (unoptimized, optimized) = answers(
        &scope_data(),
        r#"
        PREFIX ex: <http://example.com/>
        SELECT ?s
        WHERE {
          { SELECT ?s WHERE { ?s ex:p ?o . } }
          FILTER NOT EXISTS { GRAPH ex:g1 { ?s ex:p ?o . } }
        }
        ORDER BY ?s
        "#,
    );
    assert_eq!(
        optimized, unoptimized,
        "optimizer must not leak projected-away bindings into EXISTS/NOT EXISTS correlation",
    );
    assert_eq!(
        column(&unoptimized, "s"),
        vec![
            Some("<http://example.com/b>".to_owned()),
            Some("<http://example.com/c>".to_owned()),
        ]
    );
}

#[test]
fn optimizer_preserves_exists_scope_across_subquery_projection() {
    let (unoptimized, optimized) = answers(
        &scope_data(),
        r#"
        PREFIX ex: <http://example.com/>
        SELECT ?s
        WHERE {
          { SELECT ?s WHERE { ?s ex:p ?o . } }
          FILTER EXISTS { GRAPH ex:g1 { ?s ex:p ?o . } }
        }
        ORDER BY ?s
        "#,
    );
    assert_eq!(
        optimized, unoptimized,
        "optimizer must not leak projected-away bindings into EXISTS/NOT EXISTS correlation",
    );
    assert_eq!(
        column(&unoptimized, "s"),
        vec![Some("<http://example.com/a>".to_owned())]
    );
}

#[test]
fn optimizer_keeps_union_filtered_singleton_multiplicity() {
    let (unoptimized, optimized) = answers(
        &[],
        r#"
        SELECT (COUNT(*) AS ?c)
        WHERE {
          {
            {}
            UNION
            { FILTER EXISTS { VALUES ?x { 1 } } }
          }
        }
        "#,
    );
    assert_eq!(
        optimized, unoptimized,
        "optimizer and non-optimizer execution must preserve multiset multiplicity"
    );
    assert_eq!(column(&unoptimized, "c"), vec![Some("2".to_owned())]);
}

fn family() -> Vec<Quad> {
    let mut data: Vec<Quad> = Vec::new();
    for (subject, predicate, object) in [
        ("ann", "knows", "bob"),
        ("ann", "knows", "cid"),
        ("bob", "knows", "cid"),
        ("cid", "knows", "dee"),
        ("ann", "likes", "dee"),
        ("bob", "likes", "dee"),
        ("dee", "likes", "ann"),
    ] {
        data.push((iri(subject), iri(predicate), iri(object), None));
    }
    for (name, age) in [("ann", 30), ("bob", 20), ("dee", 40)] {
        data.push((iri(name), iri("age"), integer(age), None));
    }
    data
}

/// Checks that a query over the family has the same answers with and without the
/// optimizer, under usual and unusual limits, and returns their number.
fn same_answers(query: &str) -> usize {
    let data = family();
    let query = format!("PREFIX ex: <http://example.com/> {query}");
    let before = answer(&data, &plan(&query));
    for limits in [
        Limits::default(),
        Limits {
            transitive_lateral_max_left_size: usize::MAX,
            filter_exists_reorder_min_correlated_vars: 0,
            join_union_distribution_max_factor_cost: usize::MAX,
            ..Limits::default()
        },
        Limits {
            transitive_lateral_max_left_size: 0,
            join_union_distribution_max_branches: 0,
            ..Limits::default()
        },
    ] {
        let after = Optimizer::optimize_graph_pattern_with_limits(plan(&query), &limits);
        assert_eq!(before, answer(&data, &after), "{query}");
    }
    before.len()
}

#[test]
fn joins_have_the_same_answers_in_any_order() {
    assert_eq!(
        same_answers("SELECT * { ?x ex:knows ?y . ?y ex:likes ?z . ?z ex:age ?a . ?x ex:age ?b }"),
        1
    );
    assert_eq!(
        same_answers("SELECT * { ?x ex:knows ?y . ?u ex:likes ?v }"),
        12
    );
    assert_eq!(
        same_answers("SELECT * { ?x ex:knows ?y . ?x ex:knows ?y . ?y ex:knows ?x }"),
        0
    );
}

#[test]
fn optional_parts_keep_their_answers() {
    assert_eq!(
        same_answers("SELECT * { ?x ex:knows ?y OPTIONAL { ?y ex:age ?a } }"),
        4
    );
    assert_eq!(
        same_answers("SELECT * { ?x ex:knows ?y OPTIONAL { ?y ex:age ?a FILTER(?a > 25) } }"),
        4
    );
    assert_eq!(
        same_answers("SELECT * { ?x ex:knows ?y OPTIONAL { {} UNION { ?y ex:likes ?z } } }"),
        6
    );
    assert_eq!(
        same_answers("SELECT * { ?x ex:likes ?y OPTIONAL { ?x ex:age ?a } ?y ex:age ?b }"),
        3
    );
}

#[test]
fn unions_keep_their_answers() {
    assert_eq!(
        same_answers("SELECT * { { ?x ex:knows ?y } UNION { ?x ex:likes ?y } ?x ex:age ?a }"),
        6
    );
    assert_eq!(
        same_answers(
            "SELECT * { { ?x ex:age ?a . ?x ex:knows ?y } UNION { ?x ex:age ?a . ?x ex:likes ?y } }"
        ),
        6
    );
    assert_eq!(
        same_answers("SELECT * { ?x ex:age ?a { {} UNION { ?x ex:knows ?y } } }"),
        6
    );
    assert_eq!(
        same_answers(
            "SELECT * { ?x ex:age ?a . ?x ex:likes ?z { { ?x ex:knows ?y . ?u ex:age ?b } UNION { ?x ex:likes ?y } } }"
        ),
        12
    );
}

#[test]
fn filters_keep_their_answers() {
    assert_eq!(
        same_answers("SELECT * { ?x ex:knows ?y . ?x ex:age ?a FILTER(?a > 25 && ?y != ex:cid) }"),
        1
    );
    assert_eq!(
        same_answers("SELECT * { ?x ex:age ?a BIND(?a + 1 AS ?b) FILTER(?b > 25) }"),
        2
    );
    assert_eq!(
        same_answers("SELECT * { ?x ex:knows ?y FILTER EXISTS { ?y ex:knows ?z . ?z ex:likes ?w } }"),
        2
    );
    assert_eq!(
        same_answers("SELECT * { ?x ex:knows ?y FILTER NOT EXISTS { ?y ex:age ?a } }"),
        2
    );
    assert_eq!(
        same_answers("SELECT * { ?x ex:knows ?y MINUS { ?x ex:likes ?z } }"),
        1
    );
}

#[test]
fn repeated_paths_keep_their_answers() {
    assert_eq!(
        same_answers("SELECT * { ?x ex:age ?a . ?x ex:knows+ ?y . ?y ex:likes ?z }"),
        3
    );
    assert_eq!(
        same_answers("SELECT * { ex:ann ex:knows* ?y OPTIONAL { ?y ex:age ?a } }"),
        4
    );
}

#[test]
fn subqueries_keep_their_answers() {
    assert_eq!(
        same_answers("SELECT * { { SELECT DISTINCT ?x { ?x ex:knows ?y } } ?x ex:likes ?z }"),
        2
    );
    assert_eq!(
        same_answers(
            "SELECT ?x (COUNT(*) AS ?n) { ?x ex:knows ?y . ?x ex:age ?a } GROUP BY ?x"
        ),
        2
    );
    assert_eq!(
        same_answers(
            "SELECT * { ?x ex:likes ?y OPTIONAL { SELECT DISTINCT ?x ?z { ?x ex:knows ?z } } ?y ex:age ?b }"
        ),
        4
    );
    assert_eq!(
        same_answers(
            "SELECT * { ?x ex:likes ?y OPTIONAL { SELECT ?u { ?u ex:age ?w } LIMIT 1 } ?y ex:age ?b }"
        ),
        3
    );
}

#[test]
fn correlated_subclass_tests_keep_their_answers() {
    let sub = Value::Iri("http://www.w3.org/2000/01/rdf-schema#subClassOf".to_owned());
    let mut data = family();
    data.push((iri("dog"), sub.clone(), iri("animal"), None));
    data.push((iri("cat"), sub.clone(), iri("animal"), None));
    data.push((iri("animal"), sub, iri("thing"), None));
    data.push((iri("ann"), iri("owns"), iri("dog"), None));
    data.push((iri("bob"), iri("owns"), iri("cat"), None));
    data.push((iri("cid"), iri("owns"), iri("thing"), None));
    let query = r#"
        PREFIX ex: <http://example.com/>
        PREFIX rdfs: <http://www.w3.org/2000/01/rdf-schema#>
        SELECT * {
          ?x ex:knows ?y . ?x ex:owns ?c . ?y ex:owns ?d
          FILTER EXISTS { ?c rdfs:subClassOf+ ?e . ?d rdfs:subClassOf* ?e FILTER(?e != ex:thing) }
        }
    "#;
    let before = answer(&data, &plan(query));
    let limits = Limits {
        filter_exists_reorder_min_correlated_vars: 1,
        ..Limits::default()
    };
    let after = Optimizer::optimize_graph_pattern_with_limits(plan(query), &limits);
    assert_eq!(before, answer(&data, &after));
    assert_eq!(column(&before, "x"), vec![Some("<http://example.com/ann>".to_owned())]);
}

#[test]
fn optionals_inside_optionals_keep_their_answers() {
    for query in [
        "SELECT * { ?x ex:knows ?y OPTIONAL { ?y ex:likes ?z OPTIONAL { ?z ex:age ?w } } ?u ex:age ?w }",
        "SELECT * { ?u ex:age ?w . ?x ex:likes ?y OPTIONAL { ?y ex:knows ?z OPTIONAL { ?z ex:age ?w } } }",
    ] {
        assert!(same_answers(query) > 0);
    }
}

#[test]
fn tests_for_what_is_optional_or_selected_keep_their_answers() {
    let sub = Value::Iri("http://www.w3.org/2000/01/rdf-schema#subClassOf".to_owned());
    let mut data = family();
    data.push((iri("dog"), sub.clone(), iri("animal"), None));
    data.push((iri("animal"), sub, iri("thing"), None));
    data.push((iri("ann"), iri("owns"), iri("dog"), None));
    data.push((iri("bob"), iri("owns"), iri("animal"), None));
    data.push((iri("animal"), iri("label"), iri("beast"), None));
    for condition in [
        "?c rdfs:subClassOf* ?d OPTIONAL { ?d ex:label ?l }",
        "?c rdfs:subClassOf+ ?d . { SELECT ?d { ?d ex:label ?l } }",
        "?c rdfs:subClassOf+ ?d . { SELECT ?d (COUNT(*) AS ?n) { ?d ex:label ?l } GROUP BY ?d }",
    ] {
        let query = format!(
            "PREFIX ex: <http://example.com/>
             PREFIX rdfs: <http://www.w3.org/2000/01/rdf-schema#>
             SELECT * {{ ?x ex:owns ?c FILTER EXISTS {{ {condition} }} }}"
        );
        let before = answer(&data, &plan(&query));
        assert!(!before.is_empty());
        for least in [1, 2, 3, 100] {
            let limits = Limits {
                filter_exists_reorder_min_correlated_vars: least,
                ..Limits::default()
            };
            let after = Optimizer::optimize_graph_pattern_with_limits(plan(&query), &limits);
            assert_eq!(before, answer(&data, &after), "{condition}");
        }
    }
}

#[test]
fn assignments_in_optional_parts_keep_their_answers() {
    for query in [
        "SELECT * { ?x ex:knows ?y OPTIONAL { ?y ex:age ?a BIND(?a + 10 AS ?b) } ?u ex:age ?b }",
        "SELECT * { ?u ex:age ?b . ?x ex:knows ?y OPTIONAL { ?y ex:age ?a BIND(?a + 20 AS ?b) } }",
        "SELECT * { ?x ex:knows ?y OPTIONAL { ?y ex:likes ?z OPTIONAL { ?z ex:age ?w } BIND(?w AS ?v) } ?u ex:likes ?t }",
        "SELECT * { ?x ex:knows ?y OPTIONAL { ?y ex:likes ?z OPTIONAL { ?z ex:age ?w } BIND(?w AS ?v) } ?u ex:age ?v }",
        "SELECT * { ?x ex:age ?z OPTIONAL { ?x ex:knows ?w BIND(?z AS ?y) } ?x ex:likes ?u }",
    ] {
        assert!(same_answers(query) > 0, "{query}");
    }
}

#[test]
fn conditions_inside_optional_parts_keep_their_answers() {
    for query in [
        "SELECT * { ?x ex:knows ?y OPTIONAL { ?y ex:likes ?z OPTIONAL { ?z ex:age ?w FILTER(?w > 35) } } ?u ex:age ?w }",
        "SELECT * { ?x ex:knows ?y OPTIONAL { ?y ex:likes ?z OPTIONAL { ?z ex:age ?w } FILTER(bound(?w)) } ?u ex:likes ?t }",
        "SELECT * { ?x ex:knows ?y OPTIONAL { ?y ex:likes ?z MINUS { ?z ex:age ?w } } ?x ex:age ?b }",
        "SELECT * { ?x ex:knows ?y OPTIONAL { ?y ex:likes ?z MINUS { ?z ex:knows ?w } } ?y ex:age ?b }",
    ] {
        assert!(same_answers(query) > 0, "{query}");
    }
}

#[test]
fn groups_in_optional_parts_keep_their_answers() {
    assert_eq!(
        same_answers(
            "SELECT * { ?x ex:age ?a OPTIONAL { SELECT ?x (COUNT(*) AS ?n) { ?x ex:knows ?y } GROUP BY ?x } ?x ex:likes ?z }"
        ),
        3
    );
    assert_eq!(
        same_answers(
            "SELECT * { ?x ex:likes ?z OPTIONAL { SELECT ?z (COUNT(*) AS ?n) { ?y ex:likes ?z } GROUP BY ?z } ?z ex:age ?a }"
        ),
        3
    );
}

#[test]
fn constants_that_are_only_compared_keep_their_answers() {
    let xsd = "http://www.w3.org/2001/XMLSchema#";
    for (constant, count) in [
        (format!("\"NaN\"^^<{xsd}double>"), 3),
        (format!("\"maybe\"^^<{xsd}boolean>"), 3),
    ] {
        let query = format!("SELECT * {{ ?x ex:age ?a FILTER(?a != {constant}) }}");
        assert_eq!(same_answers(&query), count);
        let query = format!(
            "SELECT * {{ ?x ex:age ?a OPTIONAL {{ ?x ex:likes ?y BIND({constant} AS ?b) }} }}"
        );
        assert_eq!(same_answers(&query), count);
    }
}
