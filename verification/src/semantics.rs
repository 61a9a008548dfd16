//! What a plan means: the solutions that it has over some data.
//!
//! Functions are taken as deterministic: a call gives the same value wherever and
//! however often it is made. Nothing is said here of plans that call `RAND`, `UUID`,
//! `STRUUID` or `BNODE`.

use vstd::multiset::Multiset;
use vstd::prelude::*;

use crate::algebra::{is_atom, AggregateExpr, Expr, FunctionView, PathExpr, Plan, Row};
use crate::bags::{gather, keep, once, same};
use crate::builders::literal_truth;
use crate::solutions::{
    compatible, constant, hide_variables, joined_bags, joined_with, lookup, merge, merged, Solution,
    Term,
};
use crate::term::{
    boolean_literal, LiteralView, NodePatternView, TermPatternView, XSD_BOOLEAN, XSD_DOUBLE,
    XSD_FLOAT,
};
use crate::type_inference::{distinct_variables, infer, infer_call, type_of, Types, VariableType};
use crate::variables::{aggregate_names, plan_variables};

verus! {

/// The operators on two values other than equality.
pub ghost enum Operator {
    Greater,
    GreaterOrEqual,
    Less,
    LessOrEqual,
    Add,
    Subtract,
    Multiply,
    Divide,
}

/// The data that a plan is evaluated on, and what is up to the evaluator:
/// functions, comparisons, and which solutions a range keeps.
pub ghost struct World {
    /// The solutions of a quad pattern, a path, a graph pattern or a remote call.
    pub atom: spec_fn(Plan) -> Seq<Solution>,
    /// The effective boolean value of a term that is no boolean and no string.
    pub truth: spec_fn(Term) -> Option<bool>,
    /// Whether two values are equal.
    pub equals: spec_fn(Term, Term) -> Option<bool>,
    /// The other operators on two values.
    pub operate: spec_fn(Operator, Term, Term) -> Option<Term>,
    /// The sign operators: negation if the flag is set.
    pub sign: spec_fn(bool, Term) -> Option<Term>,
    /// The functions, of values of which some may be missing. They depend on
    /// nothing else.
    pub call: spec_fn(FunctionView, Seq<Option<Term>>) -> Option<Term>,
    /// The groups of a bag of solutions.
    pub group: spec_fn(
        Seq<Seq<char>>,
        Seq<(Seq<char>, AggregateExpr)>,
        Multiset<Solution>,
    ) -> Seq<Solution>,
    /// Whether a value, or the lack of one, is sorted before another.
    pub before: spec_fn(Option<Term>, Option<Term>) -> bool,
    /// The solutions of a bag that are in a range.
    pub slice: spec_fn(usize, Option<usize>, Multiset<Solution>) -> Seq<Solution>,
    /// Whether the optional removal of duplicates removes them.
    pub reduces: bool,
}

/// The boolean as a value.
pub open spec fn bool_term(value: bool) -> Term {
    Term::Literal(boolean_literal(value))
}

pub open spec fn bool_value(value: Option<bool>) -> Option<Term> {
    match value {
        Some(value) => Some(bool_term(value)),
        None => None,
    }
}

/// The value of a literal. Booleans have one value each, however they are written.
pub open spec fn literal_value(literal: LiteralView) -> Term {
    if literal.datatype == XSD_BOOLEAN@ {
        match literal_truth(literal) {
            Some(value) => bool_term(value),
            None => Term::Literal(literal),
        }
    } else {
        Term::Literal(literal)
    }
}

/// The effective boolean value of the value of an expression, if it has one.
pub open spec fn truth_of(world: World, value: Option<Term>) -> Option<bool> {
    match value {
        Some(Term::Literal(literal)) => match literal_truth(literal) {
            Some(truth) => Some(truth),
            None => (world.truth)(Term::Literal(literal)),
        },
        Some(term) => (world.truth)(term),
        None => None,
    }
}

/// Whether all of some conditions hold: false if one is false, otherwise unknown
/// if one is unknown.
pub open spec fn conjunction(truths: Seq<Option<bool>>) -> Option<bool> {
    if exists|i: int| 0 <= i < truths.len() && #[trigger] truths[i] == Some(false) {
        Some(false)
    } else if exists|i: int| 0 <= i < truths.len() && (#[trigger] truths[i]) is None {
        None
    } else {
        Some(true)
    }
}

/// Whether one of some conditions holds: true if one is true, otherwise unknown
/// if one is unknown.
pub open spec fn disjunction(truths: Seq<Option<bool>>) -> Option<bool> {
    if exists|i: int| 0 <= i < truths.len() && #[trigger] truths[i] == Some(true) {
        Some(true)
    } else if exists|i: int| 0 <= i < truths.len() && (#[trigger] truths[i]) is None {
        None
    } else {
        Some(false)
    }
}

/// The first of some values that is there, among the first `count`.
pub open spec fn first_value(values: Seq<Option<Term>>, count: int) -> Option<Term>
    decreases count,
{
    if count <= 0 {
        None
    } else {
        match first_value(values, count - 1) {
            Some(value) => Some(value),
            None => values[count - 1],
        }
    }
}

pub open spec fn operated(
    world: World,
    operator: Operator,
    left: Option<Term>,
    right: Option<Term>,
) -> Option<Term> {
    match (left, right) {
        (Some(l), Some(r)) => (world.operate)(operator, l, r),
        _ => None,
    }
}

pub open spec fn signed(world: World, negative: bool, value: Option<Term>) -> Option<Term> {
    match value {
        Some(term) => (world.sign)(negative, term),
        None => None,
    }
}

pub open spec fn equality(world: World, left: Option<Term>, right: Option<Term>) -> Option<Term> {
    match (left, right) {
        (Some(l), Some(r)) => bool_value((world.equals)(l, r)),
        _ => None,
    }
}

pub open spec fn identity(left: Option<Term>, right: Option<Term>) -> Option<Term> {
    match (left, right) {
        (Some(l), Some(r)) => Some(bool_term(l == r)),
        _ => None,
    }
}

pub open spec fn negation(truth: Option<bool>) -> Option<Term> {
    match truth {
        Some(value) => Some(bool_term(!value)),
        None => None,
    }
}

/// The value of an expression on a solution, or none where there is an error.
pub open spec fn value(world: World, expression: Expr, solution: Solution) -> Option<Term>
    decreases expression, 0nat,
{
    match expression {
        Expr::NamedNode(iri) => Some(Term::NamedNode(iri)),
        Expr::Literal(literal) => Some(literal_value(literal)),
        Expr::Variable(variable) => lookup(solution, variable),
        Expr::Or(inner) => bool_value(disjunction(truths(world, inner, solution))),
        Expr::And(inner) => bool_value(conjunction(truths(world, inner, solution))),
        Expr::Equal(left, right) => equality(
            world,
            value(world, *left, solution),
            value(world, *right, solution),
        ),
        Expr::SameTerm(left, right) => identity(
            value(world, *left, solution),
            value(world, *right, solution),
        ),
        Expr::Greater(left, right) => operated(
            world,
            Operator::Greater,
            value(world, *left, solution),
            value(world, *right, solution),
        ),
        Expr::GreaterOrEqual(left, right) => operated(
            world,
            Operator::GreaterOrEqual,
            value(world, *left, solution),
            value(world, *right, solution),
        ),
        Expr::Less(left, right) => operated(
            world,
            Operator::Less,
            value(world, *left, solution),
            value(world, *right, solution),
        ),
        Expr::LessOrEqual(left, right) => operated(
            world,
            Operator::LessOrEqual,
            value(world, *left, solution),
            value(world, *right, solution),
        ),
        Expr::Add(left, right) => operated(
            world,
            Operator::Add,
            value(world, *left, solution),
            value(world, *right, solution),
        ),
        Expr::Subtract(left, right) => operated(
            world,
            Operator::Subtract,
            value(world, *left, solution),
            value(world, *right, solution),
        ),
        Expr::Multiply(left, right) => operated(
            world,
            Operator::Multiply,
            value(world, *left, solution),
            value(world, *right, solution),
        ),
        Expr::Divide(left, right) => operated(
            world,
            Operator::Divide,
            value(world, *left, solution),
            value(world, *right, solution),
        ),
        Expr::UnaryPlus(inner) => signed(world, false, value(world, *inner, solution)),
        Expr::UnaryMinus(inner) => signed(world, true, value(world, *inner, solution)),
        Expr::Not(inner) => negation(truth_of(world, value(world, *inner, solution))),
        Expr::Exists(inner) => Some(bool_term(eval(world, *inner, solution).len() > 0)),
        Expr::Bound(variable) => Some(bool_term(solution.dom().contains(variable))),
        Expr::If(condition, then_case, else_case) => match truth_of(
            world,
            value(world, *condition, solution),
        ) {
            Some(true) => value(world, *then_case, solution),
            Some(false) => value(world, *else_case, solution),
            None => None,
        },
        Expr::Coalesce(inner) => first_value(values(world, inner, solution), inner.len() as int),
        Expr::FunctionCall(name, arguments) => (world.call)(
            name,
            values(world, arguments, solution),
        ),
    }
}

pub open spec fn values(world: World, expressions: Seq<Expr>, solution: Solution) -> Seq<
    Option<Term>,
>
    decreases expressions, 0nat,
{
    Seq::new(
        expressions.len(),
        |i: int|
            if 0 <= i < expressions.len() {
                value(world, expressions[i], solution)
            } else {
                None
            },
    )
}

/// The effective boolean values of some expressions.
pub open spec fn truths(world: World, expressions: Seq<Expr>, solution: Solution) -> Seq<
    Option<bool>,
>
    decreases expressions, 0nat,
{
    Seq::new(
        expressions.len(),
        |i: int|
            if 0 <= i < expressions.len() {
                truth_of(world, value(world, expressions[i], solution))
            } else {
                None
            },
    )
}

/// Whether a condition holds on a solution.
pub open spec fn holds(world: World, expression: Expr, solution: Solution) -> bool
    decreases expression, 1nat,
{
    truth_of(world, value(world, expression, solution)) == Some(true)
}

/// The solution of a row of constants: none if it binds a variable to two values.
pub open spec fn row_solutions(variables: Seq<Seq<char>>, row: Row, count: int) -> Seq<Solution>
    decreases count,
{
    if count <= 0 {
        seq![Map::empty()]
    } else {
        let before = row_solutions(variables, row, count - 1);
        if count <= row.len() {
            match row[count - 1] {
                Some(term) => joined_bags(
                    before,
                    seq![Map::empty().insert(variables[count - 1], constant(term))],
                ),
                None => before,
            }
        } else {
            before
        }
    }
}

/// The solutions of a table of constants.
pub open spec fn table(variables: Seq<Seq<char>>, bindings: Seq<Row>) -> Seq<Solution> {
    gather(bindings, |row: Row| row_solutions(variables, row, variables.len() as int))
}

/// A solution with the value of one more variable: unchanged where there is no
/// value, dropped where the variable has another value.
pub open spec fn extended(solution: Solution, variable: Seq<char>, value: Option<Term>) -> Seq<
    Solution,
> {
    match value {
        Some(term) => merged(solution, Map::empty().insert(variable, term)),
        None => seq![solution],
    }
}

/// The matches of a solution, or the solution itself where there is none.
pub open spec fn or_itself(solution: Solution, matches: Seq<Solution>) -> Seq<Solution> {
    if matches.len() == 0 {
        seq![solution]
    } else {
        matches
    }
}

/// Whether a solution agrees with one of some others, and shares a variable
/// with it that is not fixed from outside.
pub open spec fn excluded(solution: Solution, others: Seq<Solution>, input: Solution) -> bool {
    exists|i: int|
        0 <= i < others.len() && compatible(solution, #[trigger] others[i]) && shares_variable(
            solution,
            others[i],
            input,
        )
}

/// The solutions that none of some others excludes.
pub open spec fn remains(others: Seq<Solution>, input: Solution) -> spec_fn(Solution) -> bool {
    |solution: Solution| !excluded(solution, others, input)
}

pub open spec fn shares_variable(left: Solution, right: Solution, input: Solution) -> bool {
    exists|v: Seq<char>| #[trigger]
        left.dom().contains(v) && right.dom().contains(v) && !input.dom().contains(v)
}

/// Solutions without some variables, joined with another solution.
pub open spec fn shown_with(input: Solution, local: Set<Seq<char>>) -> spec_fn(Solution) -> Seq<
    Solution,
> {
    |solution: Solution| merged(input, hide_variables(solution, local))
}

/// Solutions without some variables.
pub open spec fn without_all(solutions: Seq<Solution>, gone: Set<Seq<char>>) -> Seq<Solution> {
    gather(solutions, |solution: Solution| seq![hide_variables(solution, gone)])
}

/// What some solutions add to the input.
pub open spec fn added(solutions: Seq<Solution>, input: Solution) -> Seq<Solution> {
    without_all(solutions, input.dom())
}

/// What some solutions add to the input, and the values of the grouping variables.
pub open spec fn grouped(
    solutions: Seq<Solution>,
    input: Solution,
    variables: Seq<Seq<char>>,
) -> Seq<Solution> {
    without_all(solutions, input.dom().difference(variables.to_set()))
}

/// The variables of a plan that a projection hides.
pub open spec fn hidden(inner: Plan, variables: Seq<Seq<char>>) -> Set<Seq<char>> {
    plan_variables(inner).difference(variables.to_set())
}

/// The evaluation of a plan, from any solution.
pub open spec fn evaluator(world: World, plan: Plan) -> spec_fn(Solution) -> Seq<Solution>
    decreases plan, 1nat,
{
    |solution: Solution| eval(world, plan, solution)
}

/// An expression as a condition on solutions.
pub open spec fn condition(world: World, expression: Expr) -> spec_fn(Solution) -> bool
    decreases expression, 2nat,
{
    |solution: Solution| holds(world, expression, solution)
}

/// The extension of solutions by the value of an expression.
pub open spec fn extender(world: World, variable: Seq<char>, expression: Expr) -> spec_fn(
    Solution,
) -> Seq<Solution>
    decreases expression, 2nat,
{
    |solution: Solution| extended(solution, variable, value(world, expression, solution))
}

/// The matches of a solution among some others under a condition, or itself.
pub open spec fn matcher(world: World, expression: Expr, others: Seq<Solution>) -> spec_fn(
    Solution,
) -> Seq<Solution>
    decreases expression, 3nat,
{
    |solution: Solution|
        or_itself(solution, keep(joined_with(solution, others), condition(world, expression)))
}

/// The solutions of a plan that extend a given one.
pub open spec fn eval(world: World, plan: Plan, input: Solution) -> Seq<Solution>
    decreases plan, 0nat,
{
    match plan {
        Plan::QuadPattern { .. }
        | Plan::Path { .. }
        | Plan::Graph { .. }
        | Plan::Service { .. } => joined_with(input, (world.atom)(plan)),
        Plan::Values { variables, bindings } => joined_with(input, table(variables, bindings)),
        Plan::Join { left, right, .. } => joined_bags(
            eval(world, *left, input),
            eval(world, *right, input),
        ),
        Plan::Lateral { left, right } => gather(
            eval(world, *left, input),
            evaluator(world, *right),
        ),
        Plan::LeftJoin { left, right, expression, .. } => gather(
            eval(world, *left, input),
            matcher(world, expression, eval(world, *right, input)),
        ),
        Plan::Minus { left, right, .. } => {
            let others = eval(world, *right, input);
            keep(eval(world, *left, input), remains(others, input))
        },
        Plan::Filter { inner, expression } => keep(
            eval(world, *inner, input),
            condition(world, expression),
        ),
        Plan::Extend { inner, variable, expression } => gather(
            eval(world, *inner, input),
            extender(world, variable, expression),
        ),
        Plan::Union { inner } => eval_all(world, inner, input),
        Plan::OrderBy { inner, .. } => eval(world, *inner, input),
        Plan::Distinct { inner } => once(eval(world, *inner, input)),
        Plan::Reduced { inner } => if world.reduces {
            once(eval(world, *inner, input))
        } else {
            eval(world, *inner, input)
        },
        Plan::Slice { inner, start, length } => joined_with(
            input,
            (world.slice)(
                start,
                length,
                added(eval(world, *inner, input), input).to_multiset(),
            ),
        ),
        Plan::Project { inner, variables } => {
            let local = hidden(*inner, variables);
            gather(eval(world, *inner, hide_variables(input, local)), shown_with(input, local))
        },
        Plan::Group { inner, variables, aggregates } => {
            let base = hide_variables(input, hidden(*inner, variables));
            joined_with(
                input,
                (world.group)(
                    variables,
                    aggregates,
                    grouped(eval(world, *inner, base), base, variables).to_multiset(),
                ),
            )
        },
    }
}

pub open spec fn eval_all(world: World, plans: Seq<Plan>, input: Solution) -> Seq<Solution>
    decreases plans, 0nat,
{
    if plans.len() == 0 {
        seq![]
    } else {
        eval_all(world, plans.drop_last(), input) + eval(world, plans[plans.len() - 1], input)
    }
}

/// Whether a value, or its absence, is of a type.
pub open spec fn of_type(t: VariableType, value: Option<Term>) -> bool {
    match value {
        None => t.undef,
        Some(Term::NamedNode(_)) => t.named_node,
        Some(Term::BlankNode(_)) => t.blank_node,
        Some(Term::Literal(_)) => t.literal,
        Some(Term::Triple(_, _, _)) => t.triple,
    }
}

/// Whether a value can be there where the type of a variable is known. For a
/// variable whose type is not to be relied on, only what the type excludes is.
pub open spec fn allowed(t: VariableType, value: Option<Term>, free: bool) -> bool {
    of_type(t, value) || free && value is Some && t.undef
}

/// Whether the values of all variables can be there, where the types of the
/// free ones are not to be relied on.
pub open spec fn typed(solution: Solution, types: Types, free: Set<Seq<char>>) -> bool {
    forall|v: Seq<char>|
        allowed(#[trigger] type_of(types, v), lookup(solution, v), free.contains(v))
}

/// Whether the values of all variables are of their types.
pub open spec fn has_types(solution: Solution, types: Types) -> bool {
    typed(solution, types, Set::empty())
}

/// A plan that is evaluated by looking at the data.
pub open spec fn is_lookup(plan: Plan) -> bool {
    is_atom(plan) || plan is Service
}

/// Whether the values of the variables of a pattern can stand in their places.
pub open spec fn term_fits(pattern: TermPatternView, is_object: bool, solution: Solution) -> bool
    decreases pattern,
{
    match pattern {
        TermPatternView::Variable(v) => of_type(
            if is_object {
                VariableType::of_term()
            } else {
                VariableType::of_subject()
            },
            lookup(solution, v),
        ),
        TermPatternView::Triple { subject, predicate, object } => {
            &&& term_fits(*subject, false, solution)
            &&& node_fits(predicate, solution)
            &&& term_fits(*object, true, solution)
        },
        _ => true,
    }
}

pub open spec fn node_fits(pattern: NodePatternView, solution: Solution) -> bool {
    match pattern {
        NodePatternView::Variable(v) => of_type(
            VariableType::of_named_node(),
            lookup(solution, v),
        ),
        NodePatternView::NamedNode(_) => true,
    }
}

pub open spec fn graph_name_fits(graph_name: Option<NodePatternView>, solution: Solution) -> bool {
    match graph_name {
        Some(pattern) => node_fits(pattern, solution),
        None => true,
    }
}

/// Whether the values of a match can stand where the pattern has variables. The
/// ends of a path of length zero can be any term.
pub open spec fn match_fits(plan: Plan, solution: Solution) -> bool {
    match plan {
        Plan::QuadPattern { subject, predicate, object, graph_name } => {
            &&& term_fits(subject, false, solution)
            &&& node_fits(predicate, solution)
            &&& term_fits(object, true, solution)
            &&& graph_name_fits(graph_name, solution)
        },
        Plan::Path { subject, object, graph_name, .. } => {
            &&& term_fits(subject, true, solution)
            &&& term_fits(object, true, solution)
            &&& graph_name_fits(graph_name, solution)
        },
        Plan::Graph { graph_name } => node_fits(graph_name, solution),
        _ => true,
    }
}

/// A path that connects two nodes once, in however many ways it does.
pub open spec fn connects_once(path: PathExpr) -> bool
    decreases path,
{
    match path {
        PathExpr::NamedNode(_)
        | PathExpr::ZeroOrMore(_)
        | PathExpr::OneOrMore(_)
        | PathExpr::ZeroOrOne(_) => true,
        PathExpr::Reverse(inner) => connects_once(*inner),
        PathExpr::Sequence(_, _)
        | PathExpr::Alternative(_, _)
        | PathExpr::NegatedPropertySet(_) => false,
    }
}

/// A pattern of which each match is there once.
pub open spec fn matches_once(plan: Plan) -> bool {
    match plan {
        Plan::QuadPattern { .. } | Plan::Graph { .. } => true,
        Plan::Path { path, .. } => connects_once(path),
        _ => false,
    }
}

/// The data has the shape of RDF: a pattern binds its variables and no others,
/// to terms that can stand in their places, and each match of a quad or graph
/// pattern, or of a path that is a predicate or a repetition, is there once. A remote call binds no other variables than its own,
/// to values of their types, and all that are sure to have one.
pub open spec fn regular_data(world: World) -> bool {
    &&& forall|plan: Plan, i: int|
        is_lookup(plan) && 0 <= i < (world.atom)(plan).len()
            ==> #[trigger] (world.atom)(plan)[i].dom().subset_of(plan_variables(plan))
    &&& forall|plan: Plan, i: int|
        is_atom(plan) && 0 <= i < (world.atom)(plan).len()
            ==> #[trigger] (world.atom)(plan)[i].dom() == plan_variables(plan)
    &&& forall|plan: Plan|
        matches_once(plan) ==> #[trigger] (world.atom)(plan).no_duplicates()
    &&& forall|plan: Plan, i: int|
        is_atom(plan) && 0 <= i < (world.atom)(plan).len() ==> match_fits(
            plan,
            #[trigger] (world.atom)(plan)[i],
        )
    &&& forall|plan: Plan, i: int, input: Solution, types: Types, free: Set<Seq<char>>|
        plan is Service && 0 <= i < (world.atom)(plan).len() && compatible(
            input,
            (world.atom)(plan)[i],
        ) && distinct_variables(types) && #[trigger] typed(input, types, free) ==> typed(
            #[trigger] merge(input, (world.atom)(plan)[i]),
            infer(plan, types),
            free,
        )
    &&& forall|plan: Plan, i: int, input: Solution, types: Types|
        plan is Service && 0 <= i < (world.atom)(plan).len() && compatible(
            input,
            (world.atom)(plan)[i],
        ) && distinct_variables(types) && #[trigger] low(input, types) ==> low(
            #[trigger] merge(input, (world.atom)(plan)[i]),
            infer(plan, types),
        )
}

/// The variables without a value may have none.
pub open spec fn low(solution: Solution, types: Types) -> bool {
    forall|v: Seq<char>| !solution.dom().contains(v) ==> (#[trigger] type_of(types, v)).undef
}

/// The number that does not equal itself.
pub open spec fn is_nan(literal: LiteralView) -> bool {
    (literal.datatype == XSD_FLOAT@ || literal.datatype == XSD_DOUBLE@) && literal.value == "NaN"@
}

/// A literal equals itself, unless it is no number; two terms that are not both literals and not both
/// triples are equal only if they are the same.
pub open spec fn regular_equality(world: World) -> bool {
    &&& forall|literal: LiteralView|
        !is_nan(literal) ==> #[trigger] (world.equals)(
            Term::Literal(literal),
            Term::Literal(literal),
        ) == Some(true)
    &&& forall|left: Term, right: Term|
        !(left is Literal && right is Literal) && !(left is Triple && right is Triple)
            ==> #[trigger] (world.equals)(left, right) == Some(left == right)
}

/// Operators give literals, functions give what their types say, and
/// comparisons and the tests for a kind of term give booleans.
pub open spec fn regular_functions(world: World) -> bool {
    &&& forall|operator: Operator, left: Term, right: Term|
        (#[trigger] (world.operate)(operator, left, right)) matches Some(term) ==> term is Literal
    &&& forall|operator: Operator, left: Term, right: Term|
        is_comparison(operator) ==> ((#[trigger] (world.operate)(operator, left, right)) matches Some(
            term,
        ) ==> is_boolean(term))
    &&& forall|negative: bool, term: Term|
        (#[trigger] (world.sign)(negative, term)) matches Some(result) ==> result is Literal
    &&& forall|name: FunctionView, arguments: Seq<Option<Term>>|
        of_type(infer_call(name, arguments.len()), #[trigger] (world.call)(name, arguments))
    &&& forall|name: FunctionView, arguments: Seq<Option<Term>>|
        (name is IsIri || name is IsBlank || name is IsLiteral || name is IsNumeric
            || name is IsTriple) ==> ((#[trigger] (world.call)(name, arguments)) matches Some(term)
            ==> is_boolean(term))
}

pub open spec fn is_comparison(operator: Operator) -> bool {
    operator is Greater || operator is GreaterOrEqual || operator is Less || operator is LessOrEqual
}

pub open spec fn is_boolean(term: Term) -> bool {
    term == bool_term(true) || term == bool_term(false)
}

/// The groups of those members that have some grouping values are the groups that
/// have these values.
pub open spec fn groups_apart(
    world: World,
    variables: Seq<Seq<char>>,
    aggregates: Seq<(Seq<char>, AggregateExpr)>,
    bag: Multiset<Solution>,
    key: Solution,
) -> bool {
    variables.len() > 0 && key.dom().subset_of(
        variables.to_set().difference(aggregate_names(aggregates)),
    ) && (forall|member: Solution| #[trigger]
        bag.count(member) > 0 ==> key.dom().subset_of(member.dom())) ==> same(
        (world.group)(
            variables,
            aggregates,
            bag.filter(|member: Solution| compatible(key, member)),
        ),
        keep(
            (world.group)(variables, aggregates, bag),
            |group: Solution| compatible(key, group),
        ),
    )
}

/// A group has the grouping values of one of its members, and depends on no members
/// with others. Without members there is no group, unless there are no grouping
/// variables.
pub open spec fn regular_groups(world: World) -> bool {
    &&& forall|
        variables: Seq<Seq<char>>,
        aggregates: Seq<(Seq<char>, AggregateExpr)>,
        bag: Multiset<Solution>,
        i: int,
    |
        0 <= i < (world.group)(variables, aggregates, bag).len() ==> is_group_of(
            #[trigger] (world.group)(variables, aggregates, bag)[i],
            variables,
            aggregates,
            bag,
        )
    &&& forall|variables: Seq<Seq<char>>, aggregates: Seq<(Seq<char>, AggregateExpr)>|
        variables.len() > 0 ==> #[trigger] (world.group)(
            variables,
            aggregates,
            Multiset::<Solution>::empty(),
        ) == Seq::<Solution>::empty()
    &&& forall|
        variables: Seq<Seq<char>>,
        aggregates: Seq<(Seq<char>, AggregateExpr)>,
        bag: Multiset<Solution>,
        key: Solution,
    | #[trigger]
        groups_apart(world, variables, aggregates, bag, key)
}

pub open spec fn is_group_of(
    group: Solution,
    variables: Seq<Seq<char>>,
    aggregates: Seq<(Seq<char>, AggregateExpr)>,
    bag: Multiset<Solution>,
) -> bool {
    &&& group.dom().subset_of(variables.to_set().union(aggregate_names(aggregates)))
    &&& (variables.len() == 0 || exists|member: Solution| #[trigger]
        bag.count(member) > 0 && forall|v: Seq<char>| #[trigger]
            variables.contains(v) && !aggregate_names(aggregates).contains(v) ==> lookup(group, v)
                == lookup(member, v))
}

/// A range holds solutions of the bag, all of them if it is not limited.
pub open spec fn regular_ranges(world: World) -> bool {
    &&& forall|start: usize, length: Option<usize>, bag: Multiset<Solution>, i: int|
        0 <= i < (world.slice)(start, length, bag).len() ==> bag.count(
            #[trigger] (world.slice)(start, length, bag)[i],
        ) > 0
    &&& forall|bag: Multiset<Solution>| #[trigger]
        (world.slice)(0, None, bag).to_multiset() == bag
}

/// An evaluator that does what the query language asks for.
pub open spec fn regular(world: World) -> bool {
    &&& regular_data(world)
    &&& regular_equality(world)
    &&& regular_functions(world)
    &&& regular_groups(world)
    &&& regular_ranges(world)
}

} // verus!
