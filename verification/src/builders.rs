//! Constructors that simplify what they build.

use vstd::prelude::*;

use crate::algebra::{
    aggregates_view, expr_view, exprs_view, orders_view, plans_view, row_view, rows_view,
    AggregateExpr, AggregateExpression, Expr, Expression, Function, GraphPattern, JoinAlgorithm,
    LeftJoinAlgorithm, MinusAlgorithm, OrderExpr, OrderExpression, Plan, Row,
};
use crate::term::{
    boolean_literal, names, GroundTerm, Literal, LiteralView, NamedNode, Variable, XSD_BOOLEAN,
    XSD_STRING,
};

verus! {

/// The expression that is always true, or always false.
pub open spec fn truth(value: bool) -> Expr {
    Expr::Literal(boolean_literal(value))
}

/// The effective boolean value of a literal, as far as its datatype is known.
pub open spec fn literal_truth(literal: LiteralView) -> Option<bool> {
    if literal.datatype == XSD_BOOLEAN@ {
        if literal.value == "true"@ || literal.value == "1"@ {
            Some(true)
        } else if literal.value == "false"@ || literal.value == "0"@ {
            Some(false)
        } else {
            None
        }
    } else if literal.datatype == XSD_STRING@ {
        Some(literal.value.len() > 0)
    } else {
        None
    }
}

/// The effective boolean value of an expression that is a literal.
pub open spec fn known_truth(expression: Expr) -> Option<bool> {
    match expression {
        Expr::Literal(literal) => literal_truth(literal),
        _ => None,
    }
}

/// Whether every value of an expression is a boolean.
pub open spec fn returns_boolean(expression: Expr) -> bool
    decreases expression,
{
    match expression {
        Expr::Or(_)
        | Expr::And(_)
        | Expr::Equal(_, _)
        | Expr::SameTerm(_, _)
        | Expr::Greater(_, _)
        | Expr::GreaterOrEqual(_, _)
        | Expr::Less(_, _)
        | Expr::LessOrEqual(_, _)
        | Expr::Not(_)
        | Expr::Exists(_)
        | Expr::Bound(_) => true,
        Expr::FunctionCall(name, _) => name is IsIri || name is IsBlank || name is IsLiteral
            || name is IsNumeric || name is IsTriple,
        Expr::Literal(literal) => literal.datatype == XSD_BOOLEAN@,
        Expr::If(_, then_case, else_case) => returns_boolean(*then_case) && returns_boolean(
            *else_case,
        ),
        _ => false,
    }
}

/// The conjuncts that an argument of a conjunction contributes.
pub open spec fn conjuncts(expression: Expr) -> Seq<Expr> {
    if known_truth(expression) == Some(true) {
        seq![]
    } else {
        match expression {
            Expr::And(inner) => inner,
            _ => seq![expression],
        }
    }
}

pub open spec fn all_conjuncts(expressions: Seq<Expr>) -> Seq<Expr>
    decreases expressions.len(),
{
    if expressions.len() == 0 {
        seq![]
    } else {
        all_conjuncts(expressions.drop_last()) + conjuncts(expressions.last())
    }
}

/// The conjunction of some expressions: false when one of them is false,
/// otherwise what remains without those that are true and without nesting.
pub open spec fn and_all(expressions: Seq<Expr>) -> Expr {
    if exists|i: int|
        0 <= i < expressions.len() && known_truth(#[trigger] expressions[i]) == Some(false) {
        truth(false)
    } else {
        let all = all_conjuncts(expressions);
        if all.len() == 0 {
            truth(true)
        } else if all.len() == 1 && returns_boolean(all[0]) {
            all[0]
        } else {
            Expr::And(all)
        }
    }
}

/// The disjuncts that an argument of a disjunction contributes.
pub open spec fn disjuncts(expression: Expr) -> Seq<Expr> {
    if known_truth(expression) == Some(false) {
        seq![]
    } else {
        match expression {
            Expr::Or(inner) => inner,
            _ => seq![expression],
        }
    }
}

pub open spec fn all_disjuncts(expressions: Seq<Expr>) -> Seq<Expr>
    decreases expressions.len(),
{
    if expressions.len() == 0 {
        seq![]
    } else {
        all_disjuncts(expressions.drop_last()) + disjuncts(expressions.last())
    }
}

/// The disjunction of some expressions: true when one of them is true,
/// otherwise what remains without those that are false and without nesting.
pub open spec fn or_all(expressions: Seq<Expr>) -> Expr {
    if exists|i: int|
        0 <= i < expressions.len() && known_truth(#[trigger] expressions[i]) == Some(true) {
        truth(true)
    } else {
        let all = all_disjuncts(expressions);
        if all.len() == 0 {
            truth(false)
        } else if all.len() == 1 && returns_boolean(all[0]) {
            all[0]
        } else {
            Expr::Or(all)
        }
    }
}

/// Equality, decided at once for two IRIs and for a literal and itself.
pub open spec fn equal(left: Expr, right: Expr) -> Expr {
    match (left, right) {
        (Expr::NamedNode(l), Expr::NamedNode(r)) => truth(l == r),
        (Expr::Literal(l), Expr::Literal(r)) if l == r => truth(true),
        _ => Expr::Equal(Box::new(left), Box::new(right)),
    }
}

/// Identity, decided at once for two IRIs and for a literal and itself.
pub open spec fn same_term(left: Expr, right: Expr) -> Expr {
    match (left, right) {
        (Expr::NamedNode(l), Expr::NamedNode(r)) => truth(l == r),
        (Expr::Literal(l), Expr::Literal(r)) if l == r => truth(true),
        _ => Expr::SameTerm(Box::new(left), Box::new(right)),
    }
}

/// Negation.
pub open spec fn not(expression: Expr) -> Expr {
    match known_truth(expression) {
        Some(value) => truth(!value),
        None => match expression {
            Expr::Not(inner) => if returns_boolean(*inner) {
                *inner
            } else {
                Expr::And(seq![*inner])
            },
            _ => Expr::Not(Box::new(expression)),
        },
    }
}

/// Whether a plan has a solution, decided at once for the two trivial tables.
pub open spec fn exists_plan(inner: Plan) -> Expr {
    if is_empty(inner) {
        truth(false)
    } else if is_empty_singleton(inner) {
        truth(true)
    } else {
        Expr::Exists(Box::new(inner))
    }
}

/// Conditional, decided at once for a known condition.
pub open spec fn if_cond(condition: Expr, then_case: Expr, else_case: Expr) -> Expr {
    match known_truth(condition) {
        Some(true) => then_case,
        Some(false) => else_case,
        None => Expr::If(Box::new(condition), Box::new(then_case), Box::new(else_case)),
    }
}

/// The number of columns that some row reaches.
pub open spec fn width(bindings: Seq<Row>) -> nat
    decreases bindings.len(),
{
    if bindings.len() == 0 {
        0
    } else {
        let before = width(bindings.drop_last());
        if before <= bindings.last().len() {
            bindings.last().len()
        } else {
            before
        }
    }
}

/// A table of constants, without the columns that no row reaches.
pub open spec fn values(variables: Seq<Seq<char>>, bindings: Seq<Row>) -> Plan {
    let columns = width(bindings);
    Plan::Values {
        variables: if columns < variables.len() {
            variables.take(columns as int)
        } else {
            variables
        },
        bindings,
    }
}

/// The table without rows.
pub open spec fn empty() -> Plan {
    Plan::Values { variables: seq![], bindings: seq![] }
}

/// A table without rows.
pub open spec fn is_empty(plan: Plan) -> bool {
    match plan {
        Plan::Values { bindings, .. } => bindings.len() == 0,
        _ => false,
    }
}

/// The table with one row and no columns.
pub open spec fn empty_singleton() -> Plan {
    Plan::Values { variables: seq![], bindings: seq![seq![]] }
}

/// A table with one row, which binds nothing.
pub open spec fn is_empty_singleton(plan: Plan) -> bool {
    match plan {
        Plan::Values { bindings, .. } => bindings.len() == 1 && binds_nothing(bindings[0]),
        _ => false,
    }
}

pub open spec fn binds_nothing(row: Row) -> bool {
    forall|i: int| 0 <= i < row.len() ==> (#[trigger] row[i]) is None
}

/// Inner join.
pub open spec fn join(left: Plan, right: Plan, keys: Seq<Seq<char>>) -> Plan {
    if is_empty(left) || is_empty(right) {
        empty()
    } else if is_empty_singleton(left) {
        right
    } else if is_empty_singleton(right) {
        left
    } else {
        Plan::Join { left: Box::new(left), right: Box::new(right), keys }
    }
}

/// Lateral join.
pub open spec fn lateral(left: Plan, right: Plan) -> Plan {
    if is_empty(left) || is_empty(right) {
        empty()
    } else if is_empty_singleton(left) {
        right
    } else if is_empty_singleton(right) {
        left
    } else {
        Plan::Lateral { left: Box::new(left), right: Box::new(right) }
    }
}

/// Left join.
pub open spec fn left_join(
    left: Plan,
    right: Plan,
    expression: Expr,
    keys: Seq<Seq<char>>,
) -> Plan {
    let known = known_truth(expression);
    if is_empty(left) || is_empty(right) || is_empty_singleton(right) || known == Some(false) {
        left
    } else {
        Plan::LeftJoin {
            left: Box::new(left),
            right: Box::new(right),
            expression: if known == Some(true) {
                truth(true)
            } else {
                expression
            },
            keys,
        }
    }
}

/// Difference.
pub open spec fn minus(left: Plan, right: Plan, keys: Seq<Seq<char>>) -> Plan {
    if is_empty(left) {
        empty()
    } else if is_empty(right) {
        left
    } else {
        Plan::Minus { left: Box::new(left), right: Box::new(right), keys }
    }
}

/// The branches that an argument of a union contributes.
pub open spec fn branches(plan: Plan) -> Seq<Plan> {
    if is_empty(plan) {
        seq![]
    } else {
        match plan {
            Plan::Union { inner } => inner,
            _ => seq![plan],
        }
    }
}

pub open spec fn all_branches(plans: Seq<Plan>) -> Seq<Plan>
    decreases plans.len(),
{
    if plans.len() == 0 {
        seq![]
    } else {
        all_branches(plans.drop_last()) + branches(plans.last())
    }
}

/// Union, without empty tables and without nesting.
pub open spec fn union_all(plans: Seq<Plan>) -> Plan {
    let all = all_branches(plans);
    if all.len() == 0 {
        empty()
    } else {
        Plan::Union { inner: all }
    }
}

/// A conjunction of one expression filters like that expression.
pub open spec fn without_singleton_and(expression: Expr) -> Expr {
    match expression {
        Expr::And(inner) => if inner.len() == 1 {
            inner[0]
        } else {
            expression
        },
        _ => expression,
    }
}

/// Selection, where nested filters become one.
pub open spec fn filter(inner: Plan, expression: Expr) -> Plan {
    let condition = without_singleton_and(expression);
    if is_empty(inner) {
        empty()
    } else {
        match known_truth(condition) {
            Some(true) => inner,
            Some(false) => empty(),
            None => match inner {
                Plan::Filter { expression: nested, inner: nested_inner } => Plan::Filter {
                    expression: and_all(seq![condition, nested]),
                    inner: nested_inner,
                },
                _ => Plan::Filter { expression: condition, inner: Box::new(inner) },
            },
        }
    }
}

/// Extension by one variable.
pub open spec fn extend(inner: Plan, variable: Seq<char>, expression: Expr) -> Plan {
    if is_empty(inner) {
        empty()
    } else {
        Plan::Extend { inner: Box::new(inner), variable, expression }
    }
}

/// Sorting.
pub open spec fn order_by(inner: Plan, expression: Seq<OrderExpr>) -> Plan {
    if is_empty(inner) {
        empty()
    } else if expression.len() == 0 {
        inner
    } else {
        Plan::OrderBy { inner: Box::new(inner), expression }
    }
}

/// Projection.
pub open spec fn project(inner: Plan, variables: Seq<Seq<char>>) -> Plan {
    Plan::Project { inner: Box::new(inner), variables }
}

/// Removal of duplicates.
pub open spec fn distinct(inner: Plan) -> Plan {
    if is_empty(inner) {
        empty()
    } else {
        Plan::Distinct { inner: Box::new(inner) }
    }
}

/// Optional removal of duplicates.
pub open spec fn reduced(inner: Plan) -> Plan {
    if is_empty(inner) {
        empty()
    } else {
        Plan::Reduced { inner: Box::new(inner) }
    }
}

/// A range of the solutions.
pub open spec fn slice(inner: Plan, start: usize, length: Option<usize>) -> Plan {
    if is_empty(inner) {
        empty()
    } else if start == 0 && length is None {
        inner
    } else {
        Plan::Slice { inner: Box::new(inner), start, length }
    }
}

/// Grouping. Without grouping variables even an empty table has one group.
pub open spec fn group(
    inner: Plan,
    variables: Seq<Seq<char>>,
    aggregates: Seq<(Seq<char>, AggregateExpr)>,
) -> Plan {
    if is_empty(inner) && variables.len() > 0 {
        empty()
    } else {
        Plan::Group { inner: Box::new(inner), variables, aggregates }
    }
}

impl Expression {
    /// The expression that is always true, or always false.
    pub fn boolean(value: bool) -> (r: Self)
        ensures
            r@ == truth(value),
    {
        Expression::Literal(Literal::boolean(value))
    }

    /// The effective boolean value, if this is a literal for which it is known.
    pub fn effective_boolean_value(&self) -> (r: Option<bool>)
        ensures
            r == known_truth(self@),
    {
        match self {
            Expression::Literal(literal) => {
                if literal.datatype.iri == XSD_BOOLEAN.to_owned() {
                    if literal.value == "true".to_owned() || literal.value == "1".to_owned() {
                        Some(true)
                    } else if literal.value == "false".to_owned() || literal.value
                        == "0".to_owned() {
                        Some(false)
                    } else {
                        None
                    }
                } else if literal.datatype.iri == XSD_STRING.to_owned() {
                    let blank = literal.value == String::new();
                    assert(blank == (literal.value@ =~= Seq::<char>::empty()));
                    Some(!blank)
                } else {
                    None
                }
            },
            _ => None,
        }
    }

    /// Whether every value of this expression is a boolean.
    pub fn returns_boolean(&self) -> (r: bool)
        ensures
            r == returns_boolean(self@),
        decreases self,
    {
        match self {
            Expression::Or(_)
            | Expression::And(_)
            | Expression::Equal(_, _)
            | Expression::SameTerm(_, _)
            | Expression::Greater(_, _)
            | Expression::GreaterOrEqual(_, _)
            | Expression::Less(_, _)
            | Expression::LessOrEqual(_, _)
            | Expression::Not(_)
            | Expression::Exists(_)
            | Expression::Bound(_) => true,
            Expression::FunctionCall(name, _) => match name {
                Function::IsIri
                | Function::IsBlank
                | Function::IsLiteral
                | Function::IsNumeric
                | Function::IsTriple => true,
                _ => false,
            },
            Expression::Literal(literal) => literal.datatype.iri == XSD_BOOLEAN.to_owned(),
            Expression::If(_, then_case, else_case) => then_case.returns_boolean()
                && else_case.returns_boolean(),
            _ => false,
        }
    }

    /// The conjunction of some expressions.
    pub fn and_all(args: Vec<Expression>) -> (r: Self)
        ensures
            r@ == and_all(exprs_view(args@)),
    {
        let ghost given = exprs_view(args@);
        let mut all: Vec<Expression> = Vec::new();
        for arg in it: args
            invariant
                it.seq() == args@,
                given == exprs_view(args@),
                exprs_view(all@) == all_conjuncts(given.take(it.index() as int)),
                forall|j: int|
                    0 <= j < it.index() ==> known_truth(#[trigger] given[j]) != Some(false),
        {
            let ghost n = it.index() as int;
            proof {
                assert(given[n] == arg@);
                assert(given.take(n + 1).drop_last() =~= given.take(n));
            }
            let known = arg.effective_boolean_value();
            let ghost before = all@;
            match known {
                Some(true) => {
                    assert(exprs_view(all@) =~= all_conjuncts(given.take(n + 1)));
                },
                Some(false) => {
                    assert(known_truth(given[n]) == Some(false));
                    return Expression::boolean(false);
                },
                None => match arg {
                    Expression::And(inner) => {
                        let mut inner = inner;
                        let ghost added = inner@;
                        all.append(&mut inner);
                        assert(exprs_view(all@) =~= exprs_view(before) + exprs_view(added));
                    },
                    other => {
                        all.push(other);
                        assert(exprs_view(all@) =~= exprs_view(before) + seq![given[n]]);
                    },
                },
            }
        }
        assert(given.take(given.len() as int) =~= given);
        if all.len() == 0 {
            return Expression::boolean(true);
        }
        assert(exprs_view(all@)[0] == expr_view(all@[0]));
        if all.len() == 1 && all[0].returns_boolean() {
            let result = all.pop();
            return result.unwrap();
        }
        Expression::And(all)
    }

    /// The disjunction of some expressions.
    pub fn or_all(args: Vec<Expression>) -> (r: Self)
        ensures
            r@ == or_all(exprs_view(args@)),
    {
        let ghost given = exprs_view(args@);
        let mut all: Vec<Expression> = Vec::new();
        for arg in it: args
            invariant
                it.seq() == args@,
                given == exprs_view(args@),
                exprs_view(all@) == all_disjuncts(given.take(it.index() as int)),
                forall|j: int|
                    0 <= j < it.index() ==> known_truth(#[trigger] given[j]) != Some(true),
        {
            let ghost n = it.index() as int;
            proof {
                assert(given[n] == arg@);
                assert(given.take(n + 1).drop_last() =~= given.take(n));
            }
            let known = arg.effective_boolean_value();
            let ghost before = all@;
            match known {
                Some(false) => {
                    assert(exprs_view(all@) =~= all_disjuncts(given.take(n + 1)));
                },
                Some(true) => {
                    assert(known_truth(given[n]) == Some(true));
                    return Expression::boolean(true);
                },
                None => match arg {
                    Expression::Or(inner) => {
                        let mut inner = inner;
                        let ghost added = inner@;
                        all.append(&mut inner);
                        assert(exprs_view(all@) =~= exprs_view(before) + exprs_view(added));
                    },
                    other => {
                        all.push(other);
                        assert(exprs_view(all@) =~= exprs_view(before) + seq![given[n]]);
                    },
                },
            }
        }
        assert(given.take(given.len() as int) =~= given);
        if all.len() == 0 {
            return Expression::boolean(false);
        }
        assert(exprs_view(all@)[0] == expr_view(all@[0]));
        if all.len() == 1 && all[0].returns_boolean() {
            let result = all.pop();
            return result.unwrap();
        }
        Expression::Or(all)
    }

    /// Equality.
    pub fn equal(left: Self, right: Self) -> (r: Self)
        ensures
            r@ == equal(left@, right@),
    {
        match (&left, &right) {
            (Expression::NamedNode(l), Expression::NamedNode(r)) => {
                return Expression::boolean(l.same(r));
            },
            (Expression::Literal(l), Expression::Literal(r)) => {
                if l.same(r) {
                    return Expression::boolean(true);
                }
            },
            _ => {},
        }
        Expression::Equal(Box::new(left), Box::new(right))
    }

    /// Identity.
    pub fn same_term(left: Self, right: Self) -> (r: Self)
        ensures
            r@ == same_term(left@, right@),
    {
        match (&left, &right) {
            (Expression::NamedNode(l), Expression::NamedNode(r)) => {
                return Expression::boolean(l.same(r));
            },
            (Expression::Literal(l), Expression::Literal(r)) => {
                if l.same(r) {
                    return Expression::boolean(true);
                }
            },
            _ => {},
        }
        Expression::SameTerm(Box::new(left), Box::new(right))
    }

    /// Negation.
    pub fn negate(inner: Self) -> (r: Self)
        ensures
            r@ == not(inner@),
    {
        if let Some(value) = inner.effective_boolean_value() {
            return Expression::boolean(!value);
        }
        match inner {
            Expression::Not(nested) => {
                if nested.returns_boolean() {
                    *nested
                } else {
                    let mut all: Vec<Expression> = Vec::new();
                    let ghost n = nested@;
                    all.push(*nested);
                    assert(exprs_view(all@) =~= seq![n]);
                    Expression::And(all)
                }
            },
            other => Expression::Not(Box::new(other)),
        }
    }

    /// Whether a pattern has a solution.
    pub fn exists_pattern(inner: GraphPattern) -> (r: Self)
        ensures
            r@ == exists_plan(inner@),
    {
        if inner.is_empty() {
            Expression::boolean(false)
        } else if inner.is_empty_singleton() {
            Expression::boolean(true)
        } else {
            Expression::Exists(Box::new(inner))
        }
    }

    /// Conditional.
    pub fn if_cond(condition: Self, then_case: Self, else_case: Self) -> (r: Self)
        ensures
            r@ == if_cond(condition@, then_case@, else_case@),
    {
        match condition.effective_boolean_value() {
            Some(true) => then_case,
            Some(false) => else_case,
            None => Expression::If(Box::new(condition), Box::new(then_case), Box::new(else_case)),
        }
    }
}

impl GraphPattern {
    /// A table of constants.
    pub fn values(variables: Vec<Variable>, bindings: Vec<Vec<Option<GroundTerm>>>) -> (r: Self)
        ensures
            r@ == values(names(variables@), rows_view(bindings@)),
    {
        let ghost given = names(variables@);
        let ghost rows = rows_view(bindings@);
        let mut columns: usize = 0;
        for i in 0..bindings.len()
            invariant
                rows == rows_view(bindings@),
                columns == width(rows.take(i as int)),
        {
            proof {
                assert(rows[i as int] == row_view(bindings@[i as int]));
                assert(rows.take(i + 1).drop_last() =~= rows.take(i as int));
            }
            if columns <= bindings[i].len() {
                columns = bindings[i].len();
            }
        }
        assert(rows.take(rows.len() as int) =~= rows);
        let mut variables = variables;
        if columns < variables.len() {
            variables.truncate(columns);
            assert(names(variables@) =~= given.take(columns as int));
        }
        GraphPattern::Values { variables, bindings }
    }

    /// The table without rows.
    pub fn empty() -> (r: Self)
        ensures
            r@ == empty(),
    {
        let r = GraphPattern::Values { variables: Vec::new(), bindings: Vec::new() };
        assert(r@->Values_variables =~= seq![]);
        assert(r@->Values_bindings =~= seq![]);
        r
    }

    /// Whether this is a table without rows.
    pub fn is_empty(&self) -> (r: bool)
        ensures
            r == is_empty(self@),
    {
        match self {
            GraphPattern::Values { bindings, .. } => bindings.len() == 0,
            _ => false,
        }
    }

    /// The table with one row and no columns.
    pub fn empty_singleton() -> (r: Self)
        ensures
            r@ == empty_singleton(),
    {
        let row: Vec<Option<GroundTerm>> = Vec::new();
        let mut bindings: Vec<Vec<Option<GroundTerm>>> = Vec::new();
        bindings.push(row);
        let r = GraphPattern::Values { variables: Vec::new(), bindings };
        assert(r@->Values_variables =~= seq![]);
        assert(row_view(row) =~= seq![]);
        assert(r@->Values_bindings =~= seq![seq![]]);
        r
    }

    /// Whether this is a table with one row that binds nothing.
    pub fn is_empty_singleton(&self) -> (r: bool)
        ensures
            r == is_empty_singleton(self@),
    {
        match self {
            GraphPattern::Values { bindings, .. } => {
                if bindings.len() != 1 {
                    return false;
                }
                let row = &bindings[0];
                assert(self@->Values_bindings[0] == row_view(*row));
                for i in 0..row.len()
                    invariant
                        self@ is Values,
                        self@->Values_bindings.len() == 1,
                        self@->Values_bindings[0] == row_view(*row),
                        forall|j: int| 0 <= j < i ==> (#[trigger] row_view(*row)[j]) is None,
                {
                    if row[i].is_some() {
                        assert(row_view(*row)[i as int] is Some);
                        return false;
                    }
                }
                true
            },
            _ => false,
        }
    }

    /// Inner join.
    pub fn join(left: Self, right: Self, algorithm: JoinAlgorithm) -> (r: Self)
        ensures
            r@ == join(left@, right@, algorithm@),
    {
        if left.is_empty() || right.is_empty() {
            GraphPattern::empty()
        } else if left.is_empty_singleton() {
            right
        } else if right.is_empty_singleton() {
            left
        } else {
            GraphPattern::Join { left: Box::new(left), right: Box::new(right), algorithm }
        }
    }

    /// Lateral join.
    pub fn lateral(left: Self, right: Self) -> (r: Self)
        ensures
            r@ == lateral(left@, right@),
    {
        if left.is_empty() || right.is_empty() {
            GraphPattern::empty()
        } else if left.is_empty_singleton() {
            right
        } else if right.is_empty_singleton() {
            left
        } else {
            GraphPattern::Lateral { left: Box::new(left), right: Box::new(right) }
        }
    }

    /// Left join.
    pub fn left_join(
        left: Self,
        right: Self,
        expression: Expression,
        algorithm: LeftJoinAlgorithm,
    ) -> (r: Self)
        ensures
            r@ == left_join(left@, right@, expression@, algorithm@),
    {
        let known = expression.effective_boolean_value();
        let never = match known {
            Some(value) => !value,
            None => false,
        };
        if left.is_empty() || right.is_empty() || right.is_empty_singleton() || never {
            return left;
        }
        let expression = if known.is_some() {
            Expression::boolean(true)
        } else {
            expression
        };
        GraphPattern::LeftJoin {
            left: Box::new(left),
            right: Box::new(right),
            expression,
            algorithm,
        }
    }

    /// Difference.
    pub fn minus(left: Self, right: Self, algorithm: MinusAlgorithm) -> (r: Self)
        ensures
            r@ == minus(left@, right@, algorithm@),
    {
        if left.is_empty() {
            GraphPattern::empty()
        } else if right.is_empty() {
            left
        } else {
            GraphPattern::Minus { left: Box::new(left), right: Box::new(right), algorithm }
        }
    }

    /// Union.
    pub fn union_all(args: Vec<GraphPattern>) -> (r: Self)
        ensures
            r@ == union_all(plans_view(args@)),
    {
        let ghost given = plans_view(args@);
        let mut all: Vec<GraphPattern> = Vec::new();
        for arg in it: args
            invariant
                it.seq() == args@,
                given == plans_view(args@),
                plans_view(all@) == all_branches(given.take(it.index() as int)),
        {
            let ghost n = it.index() as int;
            proof {
                assert(given[n] == arg@);
                assert(given.take(n + 1).drop_last() =~= given.take(n));
            }
            let ghost before = all@;
            if arg.is_empty() {
                assert(plans_view(all@) =~= all_branches(given.take(n + 1)));
            } else {
                match arg {
                    GraphPattern::Union { inner } => {
                        let mut inner = inner;
                        let ghost added = inner@;
                        all.append(&mut inner);
                        assert(plans_view(all@) =~= plans_view(before) + plans_view(added));
                    },
                    other => {
                        all.push(other);
                        assert(plans_view(all@) =~= plans_view(before) + seq![given[n]]);
                    },
                }
            }
        }
        assert(given.take(given.len() as int) =~= given);
        if all.len() == 0 {
            GraphPattern::empty()
        } else {
            GraphPattern::Union { inner: all }
        }
    }

    /// Selection.
    pub fn filter(inner: Self, expression: Expression) -> (r: Self)
        ensures
            r@ == filter(inner@, expression@),
    {
        if inner.is_empty() {
            return GraphPattern::empty();
        }
        let ghost given = expression@;
        let condition = match expression {
            Expression::And(args) => {
                let mut args = args;
                assert(given == Expr::And(exprs_view(args@)));
                if args.len() == 1 {
                    assert(exprs_view(args@)[0] == expr_view(args@[0]));
                    let last = args.pop();
                    last.unwrap()
                } else {
                    Expression::And(args)
                }
            },
            other => other,
        };
        assert(condition@ == without_singleton_and(given));
        match condition.effective_boolean_value() {
            Some(true) => inner,
            Some(false) => GraphPattern::empty(),
            None => match inner {
                GraphPattern::Filter { expression: nested, inner: nested_inner } => {
                    let mut args: Vec<Expression> = Vec::new();
                    let ghost both = seq![condition@, nested@];
                    args.push(condition);
                    args.push(nested);
                    assert(exprs_view(args@) =~= both);
                    GraphPattern::Filter {
                        expression: Expression::and_all(args),
                        inner: nested_inner,
                    }
                },
                other => GraphPattern::Filter { expression: condition, inner: Box::new(other) },
            },
        }
    }

    /// Extension by one variable.
    pub fn extend(inner: Self, variable: Variable, expression: Expression) -> (r: Self)
        ensures
            r@ == extend(inner@, variable@, expression@),
    {
        if inner.is_empty() {
            GraphPattern::empty()
        } else {
            GraphPattern::Extend { inner: Box::new(inner), variable, expression }
        }
    }

    /// Sorting.
    pub fn order_by(inner: Self, expression: Vec<OrderExpression>) -> (r: Self)
        ensures
            r@ == order_by(inner@, orders_view(expression@)),
    {
        if inner.is_empty() {
            GraphPattern::empty()
        } else if expression.len() == 0 {
            inner
        } else {
            GraphPattern::OrderBy { inner: Box::new(inner), expression }
        }
    }

    /// Projection.
    pub fn project(inner: Self, variables: Vec<Variable>) -> (r: Self)
        ensures
            r@ == project(inner@, names(variables@)),
    {
        GraphPattern::Project { inner: Box::new(inner), variables }
    }

    /// Removal of duplicates.
    pub fn distinct(inner: Self) -> (r: Self)
        ensures
            r@ == distinct(inner@),
    {
        if inner.is_empty() {
            GraphPattern::empty()
        } else {
            GraphPattern::Distinct { inner: Box::new(inner) }
        }
    }

    /// Optional removal of duplicates.
    pub fn reduced(inner: Self) -> (r: Self)
        ensures
            r@ == reduced(inner@),
    {
        if inner.is_empty() {
            GraphPattern::empty()
        } else {
            GraphPattern::Reduced { inner: Box::new(inner) }
        }
    }

    /// A range of the solutions.
    pub fn slice(inner: Self, start: usize, length: Option<usize>) -> (r: Self)
        ensures
            r@ == slice(inner@, start, length),
    {
        if inner.is_empty() {
            GraphPattern::empty()
        } else if start == 0 && length.is_none() {
            inner
        } else {
            GraphPattern::Slice { inner: Box::new(inner), start, length }
        }
    }

    /// Grouping.
    pub fn group(
        inner: Self,
        variables: Vec<Variable>,
        aggregates: Vec<(Variable, AggregateExpression)>,
    ) -> (r: Self)
        ensures
            r@ == group(inner@, names(variables@), aggregates_view(aggregates@)),
    {
        if inner.is_empty() && variables.len() > 0 {
            GraphPattern::empty()
        } else {
            GraphPattern::Group { inner: Box::new(inner), variables, aggregates }
        }
    }
}

} // verus!
