//! The variables that occur in expressions and plans.

use vstd::prelude::*;

use crate::algebra::{
    aggregates_view, exprs_view, plans_view, AggregateExpr, AggregateExpression, Expr, Expression,
    GraphPattern, Plan,
};
use crate::term::{
    contains_variable, graph_name_view, names, GroundTermPattern, NamedNodePattern, NodePatternView,
    TermPatternView, Variable,
};

verus! {

/// The variables of a term pattern.
pub open spec fn term_variables(pattern: TermPatternView) -> Set<Seq<char>>
    decreases pattern,
{
    match pattern {
        TermPatternView::Variable(variable) => set![variable],
        TermPatternView::Triple { subject, predicate, object } => term_variables(*subject).union(
            node_variables(predicate),
        ).union(term_variables(*object)),
        _ => set![],
    }
}

/// The variables of a node pattern.
pub open spec fn node_variables(pattern: NodePatternView) -> Set<Seq<char>> {
    match pattern {
        NodePatternView::Variable(variable) => set![variable],
        NodePatternView::NamedNode(_) => set![],
    }
}

/// The variables of a graph name.
pub open spec fn graph_name_variables(graph_name: Option<NodePatternView>) -> Set<Seq<char>> {
    match graph_name {
        Some(pattern) => node_variables(pattern),
        None => set![],
    }
}

/// The names that aggregates are bound to.
pub open spec fn aggregate_names(aggregates: Seq<(Seq<char>, AggregateExpr)>) -> Set<Seq<char>> {
    aggregates.map_values(|a: (Seq<char>, AggregateExpr)| a.0).to_set()
}

/// The variables that an expression uses, also inside `EXISTS`.
pub open spec fn expr_variables(expression: Expr) -> Set<Seq<char>>
    decreases expression,
{
    match expression {
        Expr::NamedNode(_) | Expr::Literal(_) => set![],
        Expr::Variable(variable) | Expr::Bound(variable) => set![variable],
        Expr::Or(inner) | Expr::And(inner) | Expr::Coalesce(inner) | Expr::FunctionCall(
            _,
            inner,
        ) => exprs_variables(inner),
        Expr::Equal(left, right)
        | Expr::SameTerm(left, right)
        | Expr::Greater(left, right)
        | Expr::GreaterOrEqual(left, right)
        | Expr::Less(left, right)
        | Expr::LessOrEqual(left, right)
        | Expr::Add(left, right)
        | Expr::Subtract(left, right)
        | Expr::Multiply(left, right)
        | Expr::Divide(left, right) => expr_variables(*left).union(
            expr_variables(*right),
        ),
        Expr::UnaryPlus(inner) | Expr::UnaryMinus(inner) | Expr::Not(inner) => expr_variables(
            *inner,
        ),
        Expr::If(condition, then_case, else_case) => expr_variables(*condition).union(
            expr_variables(*then_case),
        ).union(expr_variables(*else_case)),
        Expr::Exists(inner) => plan_variables(*inner),
    }
}

pub open spec fn exprs_variables(expressions: Seq<Expr>) -> Set<Seq<char>>
    decreases expressions,
{
    Set::new(
        |v: Seq<char>|
            exists|i: int|
                0 <= i < expressions.len() && expr_variables(#[trigger] expressions[i]).contains(v),
    )
}

/// The variables that a plan uses where it can see the solutions around it.
pub open spec fn plan_variables(plan: Plan) -> Set<Seq<char>>
    decreases plan,
{
    match plan {
        Plan::Values { variables, .. } | Plan::Project { variables, .. } => variables.to_set(),
        Plan::QuadPattern { subject, predicate, object, graph_name } => term_variables(
            subject,
        ).union(node_variables(predicate)).union(term_variables(object)).union(
            graph_name_variables(graph_name),
        ),
        Plan::Path { subject, object, graph_name, .. } => term_variables(subject).union(
            term_variables(object),
        ).union(graph_name_variables(graph_name)),
        Plan::Graph { graph_name } => node_variables(graph_name),
        Plan::Filter { inner, expression } => expr_variables(expression).union(
            plan_variables(*inner),
        ),
        Plan::Union { inner } => plans_variables(inner),
        Plan::Join { left, right, .. } | Plan::Minus { left, right, .. } | Plan::Lateral {
            left,
            right,
        } => plan_variables(*left).union(plan_variables(*right)),
        Plan::LeftJoin { left, right, expression, .. } => expr_variables(expression).union(
            plan_variables(*left),
        ).union(plan_variables(*right)),
        Plan::Extend { inner, variable, expression } => expr_variables(expression).union(
            plan_variables(*inner),
        ).insert(variable),
        Plan::OrderBy { inner, .. }
        | Plan::Distinct { inner }
        | Plan::Reduced { inner }
        | Plan::Slice { inner, .. } => plan_variables(*inner),
        Plan::Service { name, inner, .. } => node_variables(name).union(plan_variables(*inner)),
        Plan::Group { variables, aggregates, .. } => variables.to_set().union(
            aggregate_names(aggregates),
        ),
    }
}

pub open spec fn plans_variables(plans: Seq<Plan>) -> Set<Seq<char>>
    decreases plans,
{
    Set::new(
        |v: Seq<char>|
            exists|i: int| 0 <= i < plans.len() && plan_variables(#[trigger] plans[i]).contains(v),
    )
}

proof fn lemma_term_finite(pattern: TermPatternView)
    ensures
        term_variables(pattern).finite(),
    decreases pattern,
{
    if let TermPatternView::Triple { subject, object, .. } = pattern {
        lemma_term_finite(*subject);
        lemma_term_finite(*object);
    }
}

proof fn lemma_exprs_finite(expressions: Seq<Expr>, count: int)
    requires
        0 <= count <= expressions.len(),
    ensures
        exprs_variables(expressions.take(count)).finite(),
    decreases expressions, count,
{
    let part = expressions.take(count);
    if count == 0 {
        assert(exprs_variables(part) =~= set![]);
    } else {
        let shorter = expressions.take(count - 1);
        let last = expressions[count - 1];
        lemma_exprs_finite(expressions, count - 1);
        lemma_expr_finite(last);
        assert forall|v: Seq<char>| #[trigger] exprs_variables(part).contains(v) implies
            exprs_variables(shorter).union(expr_variables(last)).contains(v) by {
            let i = choose|i: int|
                0 <= i < part.len() && expr_variables(#[trigger] part[i]).contains(v);
            if i < count - 1 {
                assert(shorter[i] == part[i]);
            }
        }
        vstd::set_lib::lemma_len_subset(
            exprs_variables(part),
            exprs_variables(shorter).union(expr_variables(last)),
        );
    }
}

/// An expression uses a finite number of variables.
pub proof fn lemma_expr_finite(expression: Expr)
    ensures
        expr_variables(expression).finite(),
    decreases expression, 0int,
{
    match expression {
        Expr::Or(inner) | Expr::And(inner) | Expr::Coalesce(inner) | Expr::FunctionCall(
            _,
            inner,
        ) => {
            assert(inner.take(inner.len() as int) =~= inner);
            lemma_exprs_finite(inner, inner.len() as int);
        },
        Expr::Equal(left, right)
        | Expr::SameTerm(left, right)
        | Expr::Greater(left, right)
        | Expr::GreaterOrEqual(left, right)
        | Expr::Less(left, right)
        | Expr::LessOrEqual(left, right)
        | Expr::Add(left, right)
        | Expr::Subtract(left, right)
        | Expr::Multiply(left, right)
        | Expr::Divide(left, right) => {
            lemma_expr_finite(*left);
            lemma_expr_finite(*right);
        },
        Expr::UnaryPlus(inner) | Expr::UnaryMinus(inner) | Expr::Not(inner) => {
            lemma_expr_finite(*inner);
        },
        Expr::If(condition, then_case, else_case) => {
            lemma_expr_finite(*condition);
            lemma_expr_finite(*then_case);
            lemma_expr_finite(*else_case);
        },
        Expr::Exists(inner) => {
            lemma_plan_finite(*inner);
        },
        _ => {},
    }
}

proof fn lemma_plans_finite(plans: Seq<Plan>, count: int)
    requires
        0 <= count <= plans.len(),
    ensures
        plans_variables(plans.take(count)).finite(),
    decreases plans, count,
{
    let part = plans.take(count);
    if count == 0 {
        assert(plans_variables(part) =~= set![]);
    } else {
        let shorter = plans.take(count - 1);
        let last = plans[count - 1];
        lemma_plans_finite(plans, count - 1);
        lemma_plan_finite(last);
        assert forall|v: Seq<char>| #[trigger] plans_variables(part).contains(v) implies
            plans_variables(shorter).union(plan_variables(last)).contains(v) by {
            let i = choose|i: int|
                0 <= i < part.len() && plan_variables(#[trigger] part[i]).contains(v);
            if i < count - 1 {
                assert(shorter[i] == part[i]);
            }
        }
        vstd::set_lib::lemma_len_subset(
            plans_variables(part),
            plans_variables(shorter).union(plan_variables(last)),
        );
    }
}

/// A plan uses a finite number of variables.
pub proof fn lemma_plan_finite(plan: Plan)
    ensures
        plan_variables(plan).finite(),
    decreases plan, 0int,
{
    broadcast use vstd::seq_lib::seq_to_set_is_finite;

    match plan {
        Plan::QuadPattern { subject, object, .. } | Plan::Path { subject, object, .. } => {
            lemma_term_finite(subject);
            lemma_term_finite(object);
        },
        Plan::Filter { inner, expression } | Plan::Extend { inner, expression, .. } => {
            lemma_expr_finite(expression);
            lemma_plan_finite(*inner);
        },
        Plan::Union { inner } => {
            assert(inner.take(inner.len() as int) =~= inner);
            lemma_plans_finite(inner, inner.len() as int);
        },
        Plan::Join { left, right, .. } | Plan::Minus { left, right, .. } | Plan::Lateral {
            left,
            right,
        } => {
            lemma_plan_finite(*left);
            lemma_plan_finite(*right);
        },
        Plan::LeftJoin { left, right, expression, .. } => {
            lemma_expr_finite(expression);
            lemma_plan_finite(*left);
            lemma_plan_finite(*right);
        },
        Plan::OrderBy { inner, .. }
        | Plan::Distinct { inner }
        | Plan::Reduced { inner }
        | Plan::Slice { inner, .. }
        | Plan::Service { inner, .. } => {
            lemma_plan_finite(*inner);
        },
        _ => {},
    }
}

/// `after` holds the names of `before` and those of `added`, none of them twice.
pub open spec fn grown(
    before: Seq<Seq<char>>,
    after: Seq<Seq<char>>,
    added: Set<Seq<char>>,
) -> bool {
    &&& before.no_duplicates() ==> after.no_duplicates()
    &&& forall|v: Seq<char>|
        #![trigger after.contains(v)]
        after.contains(v) <==> before.contains(v) || added.contains(v)
}

fn add_variable(found: &mut Vec<Variable>, variable: &Variable)
    ensures
        grown(names(old(found)@), names(final(found)@), set![variable@]),
{
    let ghost before = names(found@);
    if !contains_variable(found, variable) {
        found.push(variable.clone());
        let ghost after = names(found@);
        proof {
            assert(after =~= before.push(variable@));
            assert forall|v: Seq<char>| #![trigger after.contains(v)]
                after.contains(v) <==> before.contains(v) || set![variable@].contains(v) by {
                if before.contains(v) {
                    let i = choose|i: int| 0 <= i < before.len() && before[i] == v;
                    assert(after[i] == v);
                }
                if v == variable@ {
                    assert(after[before.len() as int] == v);
                }
            }
        }
    } else {
        assert(grown(before, before, set![variable@]));
    }
}

fn add_variables(found: &mut Vec<Variable>, variables: &Vec<Variable>)
    ensures
        grown(names(old(found)@), names(final(found)@), names(variables@).to_set()),
{
    let ghost given = names(variables@);
    let ghost before = names(found@);
    for i in 0..variables.len()
        invariant
            given == names(variables@),
            before == names(old(found)@),
            grown(before, names(found@), given.take(i as int).to_set()),
    {
        proof {
            assert(given.take(i + 1) =~= given.take(i as int).push(given[i as int]));
            assert forall|v: Seq<char>|
                given.take(i + 1).to_set().contains(v) <==> (given.take(i as int).to_set().contains(
                    v,
                ) || v == given[i as int]) by {
                let longer = given.take(i + 1);
                let shorter = given.take(i as int);
                if longer.contains(v) {
                    let k = choose|k: int| 0 <= k < longer.len() && longer[k] == v;
                    if k < i {
                        assert(shorter[k] == v);
                    }
                }
                if shorter.contains(v) {
                    let k = choose|k: int| 0 <= k < shorter.len() && shorter[k] == v;
                    assert(longer[k] == v);
                }
                if v == given[i as int] {
                    assert(longer[i as int] == v);
                }
            }
        }
        add_variable(found, &variables[i]);
    }
    assert(given.take(given.len() as int) =~= given);
}

fn add_node_variables(found: &mut Vec<Variable>, pattern: &NamedNodePattern)
    ensures
        grown(names(old(found)@), names(final(found)@), node_variables(pattern@)),
{
    if let NamedNodePattern::Variable(variable) = pattern {
        add_variable(found, variable);
    }
}

fn add_graph_name_variables(found: &mut Vec<Variable>, graph_name: &Option<NamedNodePattern>)
    ensures
        grown(
            names(old(found)@),
            names(final(found)@),
            graph_name_variables(graph_name_view(*graph_name)),
        ),
{
    if let Some(pattern) = graph_name {
        add_node_variables(found, pattern);
    }
}

fn add_term_variables(found: &mut Vec<Variable>, pattern: &GroundTermPattern)
    ensures
        grown(names(old(found)@), names(final(found)@), term_variables(pattern@)),
    decreases pattern,
{
    match pattern {
        GroundTermPattern::Variable(variable) => add_variable(found, variable),
        GroundTermPattern::Triple(triple) => {
            add_term_variables(found, &triple.subject);
            add_node_variables(found, &triple.predicate);
            add_term_variables(found, &triple.object);
        },
        GroundTermPattern::NamedNode(_) | GroundTermPattern::Literal(_) => {},
    }
}

fn add_aggregate_names(
    found: &mut Vec<Variable>,
    aggregates: &Vec<(Variable, AggregateExpression)>,
)
    ensures
        grown(
            names(old(found)@),
            names(final(found)@),
            aggregate_names(aggregates_view(aggregates@)),
        ),
{
    let ghost given = aggregates_view(aggregates@).map_values(
        |a: (Seq<char>, AggregateExpr)| a.0,
    );
    let ghost before = names(found@);
    for i in 0..aggregates.len()
        invariant
            given == aggregates_view(aggregates@).map_values(
                |a: (Seq<char>, AggregateExpr)| a.0,
            ),
            before == names(old(found)@),
            grown(before, names(found@), given.take(i as int).to_set()),
    {
        proof {
            assert(given[i as int] == aggregates@[i as int].0@);
            assert(given.take(i + 1) =~= given.take(i as int).push(given[i as int]));
            assert forall|v: Seq<char>|
                given.take(i + 1).to_set().contains(v) <==> (given.take(i as int).to_set().contains(
                    v,
                ) || v == given[i as int]) by {
                let longer = given.take(i + 1);
                let shorter = given.take(i as int);
                if longer.contains(v) {
                    let k = choose|k: int| 0 <= k < longer.len() && longer[k] == v;
                    if k < i {
                        assert(shorter[k] == v);
                    }
                }
                if shorter.contains(v) {
                    let k = choose|k: int| 0 <= k < shorter.len() && shorter[k] == v;
                    assert(longer[k] == v);
                }
                if v == given[i as int] {
                    assert(longer[i as int] == v);
                }
            }
        }
        add_variable(found, &aggregates[i].0);
    }
    assert(given.take(given.len() as int) =~= given);
}

fn add_expressions_variables(found: &mut Vec<Variable>, expressions: &Vec<Expression>)
    ensures
        grown(
            names(old(found)@),
            names(final(found)@),
            exprs_variables(exprs_view(expressions@)),
        ),
    decreases expressions,
{
    let ghost given = exprs_view(expressions@);
    let ghost before = names(found@);
    for i in 0..expressions.len()
        invariant
            given == exprs_view(expressions@),
            before == names(old(found)@),
            before.no_duplicates() ==> names(found@).no_duplicates(),
            forall|v: Seq<char>|
                #![trigger names(found@).contains(v)]
                names(found@).contains(v) <==> before.contains(v) || exists|k: int|
                    0 <= k < i && expr_variables(#[trigger] given[k]).contains(v),
    {
        assert(given[i as int] == expressions@[i as int]@);
        add_expression_variables(found, &expressions[i]);
    }
}

fn add_expression_variables(found: &mut Vec<Variable>, expression: &Expression)
    ensures
        grown(names(old(found)@), names(final(found)@), expr_variables(expression@)),
    decreases expression,
{
    match expression {
        Expression::NamedNode(_) | Expression::Literal(_) => {},
        Expression::Variable(variable) | Expression::Bound(variable) => add_variable(
            found,
            variable,
        ),
        Expression::Or(inner)
        | Expression::And(inner)
        | Expression::Coalesce(inner)
        | Expression::FunctionCall(_, inner) => add_expressions_variables(found, inner),
        Expression::Equal(left, right)
        | Expression::SameTerm(left, right)
        | Expression::Greater(left, right)
        | Expression::GreaterOrEqual(left, right)
        | Expression::Less(left, right)
        | Expression::LessOrEqual(left, right)
        | Expression::Add(left, right)
        | Expression::Subtract(left, right)
        | Expression::Multiply(left, right)
        | Expression::Divide(left, right) => {
            add_expression_variables(found, left);
            add_expression_variables(found, right);
        },
        Expression::UnaryPlus(inner)
        | Expression::UnaryMinus(inner)
        | Expression::Not(inner) => add_expression_variables(found, inner),
        Expression::If(condition, then_case, else_case) => {
            add_expression_variables(found, condition);
            add_expression_variables(found, then_case);
            add_expression_variables(found, else_case);
        },
        Expression::Exists(inner) => add_pattern_variables(found, inner),
    }
}

fn add_patterns_variables(found: &mut Vec<Variable>, patterns: &Vec<GraphPattern>)
    ensures
        grown(names(old(found)@), names(final(found)@), plans_variables(plans_view(patterns@))),
    decreases patterns,
{
    let ghost given = plans_view(patterns@);
    let ghost before = names(found@);
    for i in 0..patterns.len()
        invariant
            given == plans_view(patterns@),
            before == names(old(found)@),
            before.no_duplicates() ==> names(found@).no_duplicates(),
            forall|v: Seq<char>|
                #![trigger names(found@).contains(v)]
                names(found@).contains(v) <==> before.contains(v) || exists|k: int|
                    0 <= k < i && plan_variables(#[trigger] given[k]).contains(v),
    {
        assert(given[i as int] == patterns@[i as int]@);
        add_pattern_variables(found, &patterns[i]);
    }
}

fn add_pattern_variables(found: &mut Vec<Variable>, pattern: &GraphPattern)
    ensures
        grown(names(old(found)@), names(final(found)@), plan_variables(pattern@)),
    decreases pattern,
{
    match pattern {
        GraphPattern::Values { variables, .. } | GraphPattern::Project { variables, .. } => {
            add_variables(found, variables);
        },
        GraphPattern::QuadPattern { subject, predicate, object, graph_name } => {
            add_term_variables(found, subject);
            add_node_variables(found, predicate);
            add_term_variables(found, object);
            add_graph_name_variables(found, graph_name);
        },
        GraphPattern::Path { subject, object, graph_name, .. } => {
            add_term_variables(found, subject);
            add_term_variables(found, object);
            add_graph_name_variables(found, graph_name);
        },
        GraphPattern::Graph { graph_name } => add_node_variables(found, graph_name),
        GraphPattern::Filter { inner, expression } => {
            add_expression_variables(found, expression);
            add_pattern_variables(found, inner);
        },
        GraphPattern::Union { inner } => add_patterns_variables(found, inner),
        GraphPattern::Join { left, right, .. }
        | GraphPattern::Minus { left, right, .. }
        | GraphPattern::Lateral { left, right } => {
            add_pattern_variables(found, left);
            add_pattern_variables(found, right);
        },
        GraphPattern::LeftJoin { left, right, expression, .. } => {
            add_expression_variables(found, expression);
            add_pattern_variables(found, left);
            add_pattern_variables(found, right);
        },
        GraphPattern::Extend { inner, variable, expression } => {
            add_variable(found, variable);
            add_expression_variables(found, expression);
            add_pattern_variables(found, inner);
        },
        GraphPattern::OrderBy { inner, .. }
        | GraphPattern::Distinct { inner }
        | GraphPattern::Reduced { inner }
        | GraphPattern::Slice { inner, .. } => add_pattern_variables(found, inner),
        GraphPattern::Service { name, inner, .. } => {
            add_node_variables(found, name);
            add_pattern_variables(found, inner);
        },
        GraphPattern::Group { variables, aggregates, .. } => {
            add_variables(found, variables);
            add_aggregate_names(found, aggregates);
        },
    }
}

impl Expression {
    /// The variables that this expression uses, each of them once.
    pub fn used_variables(&self) -> (r: Vec<Variable>)
        ensures
            names(r@).no_duplicates(),
            names(r@).to_set() == expr_variables(self@),
    {
        let mut found: Vec<Variable> = Vec::new();
        add_expression_variables(&mut found, self);
        assert(names(found@).to_set() =~= expr_variables(self@));
        found
    }
}

impl GraphPattern {
    /// The variables that this pattern uses, each of them once.
    pub fn used_variables(&self) -> (r: Vec<Variable>)
        ensures
            names(r@).no_duplicates(),
            names(r@).to_set() == plan_variables(self@),
    {
        let mut found: Vec<Variable> = Vec::new();
        add_pattern_variables(&mut found, self);
        assert(names(found@).to_set() =~= plan_variables(self@));
        found
    }
}

} // verus!
