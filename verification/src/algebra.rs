//! The query algebra: expressions and graph patterns, and what they consist of.

use vstd::prelude::*;

use crate::term::{
    clone_graph_name, clone_variables, graph_name_view, names, same_graph_name, GroundTerm,
    GroundTermPattern, GroundTermView, Literal, LiteralView, NamedNode, NamedNodePattern,
    NodePatternView, TermPatternView, Variable,
};

verus! {

/// What a property path consists of.
pub ghost enum PathExpr {
    NamedNode(Seq<char>),
    Reverse(Box<PathExpr>),
    Sequence(Box<PathExpr>, Box<PathExpr>),
    Alternative(Box<PathExpr>, Box<PathExpr>),
    ZeroOrMore(Box<PathExpr>),
    OneOrMore(Box<PathExpr>),
    ZeroOrOne(Box<PathExpr>),
    NegatedPropertySet(Seq<Seq<char>>),
}

/// A property path.
#[derive(Debug, PartialEq, Eq, Hash)]
pub enum PropertyPathExpression {
    NamedNode(NamedNode),
    Reverse(Box<PropertyPathExpression>),
    Sequence(Box<PropertyPathExpression>, Box<PropertyPathExpression>),
    Alternative(Box<PropertyPathExpression>, Box<PropertyPathExpression>),
    ZeroOrMore(Box<PropertyPathExpression>),
    OneOrMore(Box<PropertyPathExpression>),
    ZeroOrOne(Box<PropertyPathExpression>),
    NegatedPropertySet(Vec<NamedNode>),
}

pub open spec fn path_view(path: PropertyPathExpression) -> PathExpr
    decreases path,
{
    match path {
        PropertyPathExpression::NamedNode(node) => PathExpr::NamedNode(node@),
        PropertyPathExpression::Reverse(inner) => PathExpr::Reverse(Box::new(path_view(*inner))),
        PropertyPathExpression::Sequence(left, right) => PathExpr::Sequence(
            Box::new(path_view(*left)),
            Box::new(path_view(*right)),
        ),
        PropertyPathExpression::Alternative(left, right) => PathExpr::Alternative(
            Box::new(path_view(*left)),
            Box::new(path_view(*right)),
        ),
        PropertyPathExpression::ZeroOrMore(inner) => PathExpr::ZeroOrMore(
            Box::new(path_view(*inner)),
        ),
        PropertyPathExpression::OneOrMore(inner) => PathExpr::OneOrMore(
            Box::new(path_view(*inner)),
        ),
        PropertyPathExpression::ZeroOrOne(inner) => PathExpr::ZeroOrOne(
            Box::new(path_view(*inner)),
        ),
        PropertyPathExpression::NegatedPropertySet(nodes) => PathExpr::NegatedPropertySet(
            iris(nodes@),
        ),
    }
}

/// The IRIs of a list of nodes.
pub open spec fn iris(nodes: Seq<NamedNode>) -> Seq<Seq<char>> {
    nodes.map_values(|n: NamedNode| n@)
}

impl View for PropertyPathExpression {
    type V = PathExpr;

    open spec fn view(&self) -> PathExpr {
        path_view(*self)
    }
}

fn clone_nodes(nodes: &Vec<NamedNode>) -> (r: Vec<NamedNode>)
    ensures
        iris(r@) == iris(nodes@),
{
    let mut copy: Vec<NamedNode> = Vec::new();
    for i in 0..nodes.len()
        invariant
            copy@.len() == i,
            forall|j: int| 0 <= j < i ==> (#[trigger] copy@[j])@ == nodes@[j]@,
    {
        copy.push(nodes[i].clone());
    }
    assert(iris(copy@) =~= iris(nodes@));
    copy
}

fn same_nodes(left: &Vec<NamedNode>, right: &Vec<NamedNode>) -> (r: bool)
    ensures
        r == (iris(left@) == iris(right@)),
{
    if left.len() != right.len() {
        assert(iris(left@).len() != iris(right@).len());
        return false;
    }
    for i in 0..left.len()
        invariant
            left@.len() == right@.len(),
            forall|j: int| 0 <= j < i ==> (#[trigger] left@[j])@ == right@[j]@,
    {
        if !left[i].same(&right[i]) {
            assert(iris(left@)[i as int] != iris(right@)[i as int]);
            return false;
        }
    }
    assert(iris(left@) =~= iris(right@));
    true
}

fn clone_path(path: &PropertyPathExpression) -> (r: PropertyPathExpression)
    ensures
        r@ == path@,
    decreases path,
{
    match path {
        PropertyPathExpression::NamedNode(node) => PropertyPathExpression::NamedNode(node.clone()),
        PropertyPathExpression::Reverse(inner) => PropertyPathExpression::Reverse(
            Box::new(clone_path(inner)),
        ),
        PropertyPathExpression::Sequence(left, right) => PropertyPathExpression::Sequence(
            Box::new(clone_path(left)),
            Box::new(clone_path(right)),
        ),
        PropertyPathExpression::Alternative(left, right) => PropertyPathExpression::Alternative(
            Box::new(clone_path(left)),
            Box::new(clone_path(right)),
        ),
        PropertyPathExpression::ZeroOrMore(inner) => PropertyPathExpression::ZeroOrMore(
            Box::new(clone_path(inner)),
        ),
        PropertyPathExpression::OneOrMore(inner) => PropertyPathExpression::OneOrMore(
            Box::new(clone_path(inner)),
        ),
        PropertyPathExpression::ZeroOrOne(inner) => PropertyPathExpression::ZeroOrOne(
            Box::new(clone_path(inner)),
        ),
        PropertyPathExpression::NegatedPropertySet(
            nodes,
        ) => PropertyPathExpression::NegatedPropertySet(clone_nodes(nodes)),
    }
}

fn same_path(left: &PropertyPathExpression, right: &PropertyPathExpression) -> (r: bool)
    ensures
        r == (left@ == right@),
    decreases left,
{
    match (left, right) {
        (PropertyPathExpression::NamedNode(left), PropertyPathExpression::NamedNode(right)) =>
            left.same(right),
        (PropertyPathExpression::Reverse(left), PropertyPathExpression::Reverse(right)) =>
            same_path(left, right),
        (
            PropertyPathExpression::Sequence(left, left_rest),
            PropertyPathExpression::Sequence(right, right_rest),
        ) => same_path(left, right) && same_path(left_rest, right_rest),
        (
            PropertyPathExpression::Alternative(left, left_rest),
            PropertyPathExpression::Alternative(right, right_rest),
        ) => same_path(left, right) && same_path(left_rest, right_rest),
        (PropertyPathExpression::ZeroOrMore(left), PropertyPathExpression::ZeroOrMore(right)) =>
            same_path(left, right),
        (PropertyPathExpression::OneOrMore(left), PropertyPathExpression::OneOrMore(right)) =>
            same_path(left, right),
        (PropertyPathExpression::ZeroOrOne(left), PropertyPathExpression::ZeroOrOne(right)) =>
            same_path(left, right),
        (
            PropertyPathExpression::NegatedPropertySet(left),
            PropertyPathExpression::NegatedPropertySet(right),
        ) => same_nodes(left, right),
        _ => false,
    }
}

impl Clone for PropertyPathExpression {
    fn clone(&self) -> (r: Self)
        ensures
            r@ == self@,
    {
        clone_path(self)
    }
}

impl PropertyPathExpression {
    /// Whether both paths are the same.
    pub fn same(&self, other: &Self) -> (r: bool)
        ensures
            r == (self@ == other@),
    {
        same_path(self, other)
    }
}

/// What a function is called.
pub ghost enum FunctionView {
    Str,
    Lang,
    LangMatches,
    Datatype,
    Iri,
    BNode,
    Rand,
    Abs,
    Ceil,
    Floor,
    Round,
    Concat,
    SubStr,
    StrLen,
    Replace,
    UCase,
    LCase,
    EncodeForUri,
    Contains,
    StrStarts,
    StrEnds,
    StrBefore,
    StrAfter,
    Year,
    Month,
    Day,
    Hours,
    Minutes,
    Seconds,
    Timezone,
    Tz,
    Now,
    Uuid,
    StrUuid,
    Md5,
    Sha1,
    Sha256,
    Sha384,
    Sha512,
    StrLang,
    StrDt,
    IsIri,
    IsBlank,
    IsLiteral,
    IsNumeric,
    Regex,
    Triple,
    Subject,
    Predicate,
    Object,
    IsTriple,
    LangDir,
    HasLang,
    HasLangDir,
    StrLangDir,
    Custom(Seq<char>),
}

/// A function that an expression can call.
#[derive(Debug, PartialEq, Eq, Hash)]
pub enum Function {
    Str,
    Lang,
    LangMatches,
    Datatype,
    Iri,
    BNode,
    Rand,
    Abs,
    Ceil,
    Floor,
    Round,
    Concat,
    SubStr,
    StrLen,
    Replace,
    UCase,
    LCase,
    EncodeForUri,
    Contains,
    StrStarts,
    StrEnds,
    StrBefore,
    StrAfter,
    Year,
    Month,
    Day,
    Hours,
    Minutes,
    Seconds,
    Timezone,
    Tz,
    Now,
    Uuid,
    StrUuid,
    Md5,
    Sha1,
    Sha256,
    Sha384,
    Sha512,
    StrLang,
    StrDt,
    IsIri,
    IsBlank,
    IsLiteral,
    IsNumeric,
    Regex,
    Triple,
    Subject,
    Predicate,
    Object,
    IsTriple,
    LangDir,
    HasLang,
    HasLangDir,
    StrLangDir,
    Custom(NamedNode),
}

impl View for Function {
    type V = FunctionView;

    open spec fn view(&self) -> FunctionView {
        match self {
            Function::Str => FunctionView::Str,
            Function::Lang => FunctionView::Lang,
            Function::LangMatches => FunctionView::LangMatches,
            Function::Datatype => FunctionView::Datatype,
            Function::Iri => FunctionView::Iri,
            Function::BNode => FunctionView::BNode,
            Function::Rand => FunctionView::Rand,
            Function::Abs => FunctionView::Abs,
            Function::Ceil => FunctionView::Ceil,
            Function::Floor => FunctionView::Floor,
            Function::Round => FunctionView::Round,
            Function::Concat => FunctionView::Concat,
            Function::SubStr => FunctionView::SubStr,
            Function::StrLen => FunctionView::StrLen,
            Function::Replace => FunctionView::Replace,
            Function::UCase => FunctionView::UCase,
            Function::LCase => FunctionView::LCase,
            Function::EncodeForUri => FunctionView::EncodeForUri,
            Function::Contains => FunctionView::Contains,
            Function::StrStarts => FunctionView::StrStarts,
            Function::StrEnds => FunctionView::StrEnds,
            Function::StrBefore => FunctionView::StrBefore,
            Function::StrAfter => FunctionView::StrAfter,
            Function::Year => FunctionView::Year,
            Function::Month => FunctionView::Month,
            Function::Day => FunctionView::Day,
            Function::Hours => FunctionView::Hours,
            Function::Minutes => FunctionView::Minutes,
            Function::Seconds => FunctionView::Seconds,
            Function::Timezone => FunctionView::Timezone,
            Function::Tz => FunctionView::Tz,
            Function::Now => FunctionView::Now,
            Function::Uuid => FunctionView::Uuid,
            Function::StrUuid => FunctionView::StrUuid,
            Function::Md5 => FunctionView::Md5,
            Function::Sha1 => FunctionView::Sha1,
            Function::Sha256 => FunctionView::Sha256,
            Function::Sha384 => FunctionView::Sha384,
            Function::Sha512 => FunctionView::Sha512,
            Function::StrLang => FunctionView::StrLang,
            Function::StrDt => FunctionView::StrDt,
            Function::IsIri => FunctionView::IsIri,
            Function::IsBlank => FunctionView::IsBlank,
            Function::IsLiteral => FunctionView::IsLiteral,
            Function::IsNumeric => FunctionView::IsNumeric,
            Function::Regex => FunctionView::Regex,
            Function::Triple => FunctionView::Triple,
            Function::Subject => FunctionView::Subject,
            Function::Predicate => FunctionView::Predicate,
            Function::Object => FunctionView::Object,
            Function::IsTriple => FunctionView::IsTriple,
            Function::LangDir => FunctionView::LangDir,
            Function::HasLang => FunctionView::HasLang,
            Function::HasLangDir => FunctionView::HasLangDir,
            Function::StrLangDir => FunctionView::StrLangDir,
            Function::Custom(name) => FunctionView::Custom(name@),
        }
    }
}

impl Clone for Function {
    fn clone(&self) -> (r: Self)
        ensures
            r == *self,
    {
        match self {
            Function::Str => Function::Str,
            Function::Lang => Function::Lang,
            Function::LangMatches => Function::LangMatches,
            Function::Datatype => Function::Datatype,
            Function::Iri => Function::Iri,
            Function::BNode => Function::BNode,
            Function::Rand => Function::Rand,
            Function::Abs => Function::Abs,
            Function::Ceil => Function::Ceil,
            Function::Floor => Function::Floor,
            Function::Round => Function::Round,
            Function::Concat => Function::Concat,
            Function::SubStr => Function::SubStr,
            Function::StrLen => Function::StrLen,
            Function::Replace => Function::Replace,
            Function::UCase => Function::UCase,
            Function::LCase => Function::LCase,
            Function::EncodeForUri => Function::EncodeForUri,
            Function::Contains => Function::Contains,
            Function::StrStarts => Function::StrStarts,
            Function::StrEnds => Function::StrEnds,
            Function::StrBefore => Function::StrBefore,
            Function::StrAfter => Function::StrAfter,
            Function::Year => Function::Year,
            Function::Month => Function::Month,
            Function::Day => Function::Day,
            Function::Hours => Function::Hours,
            Function::Minutes => Function::Minutes,
            Function::Seconds => Function::Seconds,
            Function::Timezone => Function::Timezone,
            Function::Tz => Function::Tz,
            Function::Now => Function::Now,
            Function::Uuid => Function::Uuid,
            Function::StrUuid => Function::StrUuid,
            Function::Md5 => Function::Md5,
            Function::Sha1 => Function::Sha1,
            Function::Sha256 => Function::Sha256,
            Function::Sha384 => Function::Sha384,
            Function::Sha512 => Function::Sha512,
            Function::StrLang => Function::StrLang,
            Function::StrDt => Function::StrDt,
            Function::IsIri => Function::IsIri,
            Function::IsBlank => Function::IsBlank,
            Function::IsLiteral => Function::IsLiteral,
            Function::IsNumeric => Function::IsNumeric,
            Function::Regex => Function::Regex,
            Function::Triple => Function::Triple,
            Function::Subject => Function::Subject,
            Function::Predicate => Function::Predicate,
            Function::Object => Function::Object,
            Function::IsTriple => Function::IsTriple,
            Function::LangDir => Function::LangDir,
            Function::HasLang => Function::HasLang,
            Function::HasLangDir => Function::HasLangDir,
            Function::StrLangDir => Function::StrLangDir,
            Function::Custom(name) => Function::Custom(name.clone()),
        }
    }
}

/// What an expression consists of.
pub ghost enum Expr {
    NamedNode(Seq<char>),
    Literal(LiteralView),
    Variable(Seq<char>),
    Or(Seq<Expr>),
    And(Seq<Expr>),
    Equal(Box<Expr>, Box<Expr>),
    SameTerm(Box<Expr>, Box<Expr>),
    Greater(Box<Expr>, Box<Expr>),
    GreaterOrEqual(Box<Expr>, Box<Expr>),
    Less(Box<Expr>, Box<Expr>),
    LessOrEqual(Box<Expr>, Box<Expr>),
    Add(Box<Expr>, Box<Expr>),
    Subtract(Box<Expr>, Box<Expr>),
    Multiply(Box<Expr>, Box<Expr>),
    Divide(Box<Expr>, Box<Expr>),
    UnaryPlus(Box<Expr>),
    UnaryMinus(Box<Expr>),
    Not(Box<Expr>),
    Exists(Box<Plan>),
    Bound(Seq<char>),
    If(Box<Expr>, Box<Expr>, Box<Expr>),
    Coalesce(Seq<Expr>),
    FunctionCall(FunctionView, Seq<Expr>),
}

/// An expression.
#[derive(Debug, PartialEq, Eq, Hash)]
pub enum Expression {
    NamedNode(NamedNode),
    Literal(Literal),
    Variable(Variable),
    /// Logical or.
    Or(Vec<Expression>),
    /// Logical and.
    And(Vec<Expression>),
    Equal(Box<Expression>, Box<Expression>),
    SameTerm(Box<Expression>, Box<Expression>),
    Greater(Box<Expression>, Box<Expression>),
    GreaterOrEqual(Box<Expression>, Box<Expression>),
    Less(Box<Expression>, Box<Expression>),
    LessOrEqual(Box<Expression>, Box<Expression>),
    Add(Box<Expression>, Box<Expression>),
    Subtract(Box<Expression>, Box<Expression>),
    Multiply(Box<Expression>, Box<Expression>),
    Divide(Box<Expression>, Box<Expression>),
    UnaryPlus(Box<Expression>),
    UnaryMinus(Box<Expression>),
    Not(Box<Expression>),
    Exists(Box<GraphPattern>),
    Bound(Variable),
    If(Box<Expression>, Box<Expression>, Box<Expression>),
    Coalesce(Vec<Expression>),
    FunctionCall(Function, Vec<Expression>),
}

/// What a sort criterion consists of.
pub ghost enum OrderExpr {
    Asc(Expr),
    Desc(Expr),
}

/// A sort criterion.
#[derive(Debug, PartialEq, Eq, Hash)]
pub enum OrderExpression {
    Asc(Expression),
    Desc(Expression),
}

/// What an aggregate function is called.
pub ghost enum AggregateFunctionView {
    Count,
    Sum,
    Avg,
    Min,
    Max,
    GroupConcat { separator: Option<Seq<char>> },
    Sample,
    Custom(Seq<char>),
}

/// A function that folds the rows of a group.
#[derive(Debug, PartialEq, Eq, Hash)]
pub enum AggregateFunction {
    Count,
    Sum,
    Avg,
    Min,
    Max,
    GroupConcat { separator: Option<String> },
    Sample,
    Custom(NamedNode),
}

impl View for AggregateFunction {
    type V = AggregateFunctionView;

    open spec fn view(&self) -> AggregateFunctionView {
        match self {
            AggregateFunction::Count => AggregateFunctionView::Count,
            AggregateFunction::Sum => AggregateFunctionView::Sum,
            AggregateFunction::Avg => AggregateFunctionView::Avg,
            AggregateFunction::Min => AggregateFunctionView::Min,
            AggregateFunction::Max => AggregateFunctionView::Max,
            AggregateFunction::GroupConcat { separator } => AggregateFunctionView::GroupConcat {
                separator: match separator {
                    Some(separator) => Some(separator@),
                    None => None,
                },
            },
            AggregateFunction::Sample => AggregateFunctionView::Sample,
            AggregateFunction::Custom(name) => AggregateFunctionView::Custom(name@),
        }
    }
}

impl Clone for AggregateFunction {
    fn clone(&self) -> (r: Self)
        ensures
            r == *self,
    {
        match self {
            AggregateFunction::Count => AggregateFunction::Count,
            AggregateFunction::Sum => AggregateFunction::Sum,
            AggregateFunction::Avg => AggregateFunction::Avg,
            AggregateFunction::Min => AggregateFunction::Min,
            AggregateFunction::Max => AggregateFunction::Max,
            AggregateFunction::GroupConcat { separator } => AggregateFunction::GroupConcat {
                separator: match separator {
                    Some(separator) => Some(separator.clone()),
                    None => None,
                },
            },
            AggregateFunction::Sample => AggregateFunction::Sample,
            AggregateFunction::Custom(name) => AggregateFunction::Custom(name.clone()),
        }
    }
}

/// What an aggregate consists of.
pub ghost enum AggregateExpr {
    CountSolutions { distinct: bool },
    FunctionCall { name: AggregateFunctionView, expr: Box<Expr>, distinct: bool },
}

/// An aggregate over the rows of a group.
#[derive(Debug, PartialEq, Eq, Hash)]
pub enum AggregateExpression {
    CountSolutions { distinct: bool },
    FunctionCall { name: AggregateFunction, expr: Box<Expression>, distinct: bool },
}

/// How an inner join is computed.
#[derive(Debug, PartialEq, Eq, Hash)]
pub enum JoinAlgorithm {
    HashBuildLeftProbeRight { keys: Vec<Variable> },
}

/// How a left join is computed.
#[derive(Debug, PartialEq, Eq, Hash)]
pub enum LeftJoinAlgorithm {
    HashBuildRightProbeLeft { keys: Vec<Variable> },
}

/// How a difference is computed.
#[derive(Debug, PartialEq, Eq, Hash)]
pub enum MinusAlgorithm {
    HashBuildRightProbeLeft { keys: Vec<Variable> },
}

impl View for JoinAlgorithm {
    type V = Seq<Seq<char>>;

    /// The names of the hash keys.
    open spec fn view(&self) -> Seq<Seq<char>> {
        match self {
            JoinAlgorithm::HashBuildLeftProbeRight { keys } => names(keys@),
        }
    }
}

impl Clone for JoinAlgorithm {
    fn clone(&self) -> (r: Self)
        ensures
            r@ == self@,
    {
        match self {
            JoinAlgorithm::HashBuildLeftProbeRight { keys } => JoinAlgorithm::HashBuildLeftProbeRight {
                keys: clone_variables(keys),
            },
        }
    }
}

impl View for LeftJoinAlgorithm {
    type V = Seq<Seq<char>>;

    /// The names of the hash keys.
    open spec fn view(&self) -> Seq<Seq<char>> {
        match self {
            LeftJoinAlgorithm::HashBuildRightProbeLeft { keys } => names(keys@),
        }
    }
}

impl Clone for LeftJoinAlgorithm {
    fn clone(&self) -> (r: Self)
        ensures
            r@ == self@,
    {
        match self {
            LeftJoinAlgorithm::HashBuildRightProbeLeft { keys } => LeftJoinAlgorithm::HashBuildRightProbeLeft {
                keys: clone_variables(keys),
            },
        }
    }
}

impl View for MinusAlgorithm {
    type V = Seq<Seq<char>>;

    /// The names of the hash keys.
    open spec fn view(&self) -> Seq<Seq<char>> {
        match self {
            MinusAlgorithm::HashBuildRightProbeLeft { keys } => names(keys@),
        }
    }
}

impl Clone for MinusAlgorithm {
    fn clone(&self) -> (r: Self)
        ensures
            r@ == self@,
    {
        match self {
            MinusAlgorithm::HashBuildRightProbeLeft { keys } => MinusAlgorithm::HashBuildRightProbeLeft {
                keys: clone_variables(keys),
            },
        }
    }
}

/// The rows of a table of constants.
pub type Row = Seq<Option<GroundTermView>>;

/// What a graph pattern consists of. The hash keys of a join stand for its
/// algorithm.
#[allow(inconsistent_fields)]
pub ghost enum Plan {
    QuadPattern {
        subject: TermPatternView,
        predicate: NodePatternView,
        object: TermPatternView,
        graph_name: Option<NodePatternView>,
    },
    Path {
        subject: TermPatternView,
        path: PathExpr,
        object: TermPatternView,
        graph_name: Option<NodePatternView>,
    },
    Graph { graph_name: NodePatternView },
    Join { left: Box<Plan>, right: Box<Plan>, keys: Seq<Seq<char>> },
    LeftJoin { left: Box<Plan>, right: Box<Plan>, expression: Expr, keys: Seq<Seq<char>> },
    Lateral { left: Box<Plan>, right: Box<Plan> },
    Filter { expression: Expr, inner: Box<Plan> },
    Union { inner: Seq<Plan> },
    Extend { inner: Box<Plan>, variable: Seq<char>, expression: Expr },
    Minus { left: Box<Plan>, right: Box<Plan>, keys: Seq<Seq<char>> },
    Values { variables: Seq<Seq<char>>, bindings: Seq<Row> },
    OrderBy { inner: Box<Plan>, expression: Seq<OrderExpr> },
    Project { inner: Box<Plan>, variables: Seq<Seq<char>> },
    Distinct { inner: Box<Plan> },
    Reduced { inner: Box<Plan> },
    Slice { inner: Box<Plan>, start: usize, length: Option<usize> },
    Group {
        inner: Box<Plan>,
        variables: Seq<Seq<char>>,
        aggregates: Seq<(Seq<char>, AggregateExpr)>,
    },
    Service { name: NodePatternView, inner: Box<Plan>, silent: bool },
}

/// A graph pattern.
#[allow(inconsistent_fields)]
#[derive(Debug, PartialEq, Eq, Hash)]
pub enum GraphPattern {
    /// The quads that match a pattern.
    QuadPattern {
        subject: GroundTermPattern,
        predicate: NamedNodePattern,
        object: GroundTermPattern,
        graph_name: Option<NamedNodePattern>,
    },
    /// The pairs that a property path connects.
    Path {
        subject: GroundTermPattern,
        path: PropertyPathExpression,
        object: GroundTermPattern,
        graph_name: Option<NamedNodePattern>,
    },
    /// The named graphs.
    Graph { graph_name: NamedNodePattern },
    /// Inner join.
    Join { left: Box<GraphPattern>, right: Box<GraphPattern>, algorithm: JoinAlgorithm },
    /// Left join.
    LeftJoin {
        left: Box<GraphPattern>,
        right: Box<GraphPattern>,
        expression: Expression,
        algorithm: LeftJoinAlgorithm,
    },
    /// Join whose right side is evaluated once for each solution of the left.
    Lateral { left: Box<GraphPattern>, right: Box<GraphPattern> },
    /// The solutions on which an expression holds.
    Filter { expression: Expression, inner: Box<GraphPattern> },
    /// The solutions of all branches.
    Union { inner: Vec<GraphPattern> },
    /// The solutions with one more variable.
    Extend { inner: Box<GraphPattern>, variable: Variable, expression: Expression },
    /// The solutions of the left side that no solution of the right agrees with.
    Minus { left: Box<GraphPattern>, right: Box<GraphPattern>, algorithm: MinusAlgorithm },
    /// A table of constants.
    Values { variables: Vec<Variable>, bindings: Vec<Vec<Option<GroundTerm>>> },
    /// The solutions in order.
    OrderBy { inner: Box<GraphPattern>, expression: Vec<OrderExpression> },
    /// The solutions restricted to some variables.
    Project { inner: Box<GraphPattern>, variables: Vec<Variable> },
    /// The solutions without duplicates.
    Distinct { inner: Box<GraphPattern> },
    /// The solutions, where duplicates may be dropped.
    Reduced { inner: Box<GraphPattern> },
    /// A range of the solutions.
    Slice { inner: Box<GraphPattern>, start: usize, length: Option<usize> },
    /// One solution per group.
    Group {
        inner: Box<GraphPattern>,
        variables: Vec<Variable>,
        aggregates: Vec<(Variable, AggregateExpression)>,
    },
    /// The solutions of a remote endpoint.
    Service { name: NamedNodePattern, inner: Box<GraphPattern>, silent: bool },
}

/// The rows of a table.
pub open spec fn row_view(row: Vec<Option<GroundTerm>>) -> Row {
    row@.map_values(
        |cell: Option<GroundTerm>|
            match cell {
                Some(term) => Some(term@),
                None => None,
            },
    )
}

pub open spec fn rows_view(rows: Seq<Vec<Option<GroundTerm>>>) -> Seq<Row> {
    rows.map_values(|row: Vec<Option<GroundTerm>>| row_view(row))
}

pub open spec fn expr_view(expression: Expression) -> Expr
    decreases expression,
{
    match expression {
        Expression::NamedNode(node) => Expr::NamedNode(node@),
        Expression::Literal(literal) => Expr::Literal(literal@),
        Expression::Variable(variable) => Expr::Variable(variable@),
        Expression::Or(inner) => Expr::Or(exprs_view(inner@)),
        Expression::And(inner) => Expr::And(exprs_view(inner@)),
        Expression::Equal(left, right) => Expr::Equal(
            Box::new(expr_view(*left)),
            Box::new(expr_view(*right)),
        ),
        Expression::SameTerm(left, right) => Expr::SameTerm(
            Box::new(expr_view(*left)),
            Box::new(expr_view(*right)),
        ),
        Expression::Greater(left, right) => Expr::Greater(
            Box::new(expr_view(*left)),
            Box::new(expr_view(*right)),
        ),
        Expression::GreaterOrEqual(left, right) => Expr::GreaterOrEqual(
            Box::new(expr_view(*left)),
            Box::new(expr_view(*right)),
        ),
        Expression::Less(left, right) => Expr::Less(
            Box::new(expr_view(*left)),
            Box::new(expr_view(*right)),
        ),
        Expression::LessOrEqual(left, right) => Expr::LessOrEqual(
            Box::new(expr_view(*left)),
            Box::new(expr_view(*right)),
        ),
        Expression::Add(left, right) => Expr::Add(
            Box::new(expr_view(*left)),
            Box::new(expr_view(*right)),
        ),
        Expression::Subtract(left, right) => Expr::Subtract(
            Box::new(expr_view(*left)),
            Box::new(expr_view(*right)),
        ),
        Expression::Multiply(left, right) => Expr::Multiply(
            Box::new(expr_view(*left)),
            Box::new(expr_view(*right)),
        ),
        Expression::Divide(left, right) => Expr::Divide(
            Box::new(expr_view(*left)),
            Box::new(expr_view(*right)),
        ),
        Expression::UnaryPlus(inner) => Expr::UnaryPlus(Box::new(expr_view(*inner))),
        Expression::UnaryMinus(inner) => Expr::UnaryMinus(Box::new(expr_view(*inner))),
        Expression::Not(inner) => Expr::Not(Box::new(expr_view(*inner))),
        Expression::Exists(inner) => Expr::Exists(Box::new(plan_view(*inner))),
        Expression::Bound(variable) => Expr::Bound(variable@),
        Expression::If(condition, then_case, else_case) => Expr::If(
            Box::new(expr_view(*condition)),
            Box::new(expr_view(*then_case)),
            Box::new(expr_view(*else_case)),
        ),
        Expression::Coalesce(inner) => Expr::Coalesce(exprs_view(inner@)),
        Expression::FunctionCall(name, arguments) => Expr::FunctionCall(
            name@,
            exprs_view(arguments@),
        ),
    }
}

pub open spec fn exprs_view(expressions: Seq<Expression>) -> Seq<Expr>
    decreases expressions,
{
    Seq::new(
        expressions.len(),
        |i: int|
            if 0 <= i < expressions.len() {
                expr_view(expressions[i])
            } else {
                arbitrary()
            },
    )
}

pub open spec fn order_view(criterion: OrderExpression) -> OrderExpr
    decreases criterion,
{
    match criterion {
        OrderExpression::Asc(expression) => OrderExpr::Asc(expr_view(expression)),
        OrderExpression::Desc(expression) => OrderExpr::Desc(expr_view(expression)),
    }
}

pub open spec fn orders_view(criteria: Seq<OrderExpression>) -> Seq<OrderExpr>
    decreases criteria,
{
    Seq::new(
        criteria.len(),
        |i: int|
            if 0 <= i < criteria.len() {
                order_view(criteria[i])
            } else {
                arbitrary()
            },
    )
}

pub open spec fn aggregate_view(aggregate: AggregateExpression) -> AggregateExpr
    decreases aggregate,
{
    match aggregate {
        AggregateExpression::CountSolutions { distinct } => AggregateExpr::CountSolutions {
            distinct,
        },
        AggregateExpression::FunctionCall { name, expr, distinct } => AggregateExpr::FunctionCall {
            name: name@,
            expr: Box::new(expr_view(*expr)),
            distinct,
        },
    }
}

pub open spec fn aggregates_view(aggregates: Seq<(Variable, AggregateExpression)>) -> Seq<
    (Seq<char>, AggregateExpr),
>
    decreases aggregates,
{
    Seq::new(
        aggregates.len(),
        |i: int|
            if 0 <= i < aggregates.len() {
                (aggregates[i].0@, aggregate_view(aggregates[i].1))
            } else {
                arbitrary()
            },
    )
}

pub open spec fn plan_view(pattern: GraphPattern) -> Plan
    decreases pattern,
{
    match pattern {
        GraphPattern::QuadPattern { subject, predicate, object, graph_name } => Plan::QuadPattern {
            subject: subject@,
            predicate: predicate@,
            object: object@,
            graph_name: graph_name_view(graph_name),
        },
        GraphPattern::Path { subject, path, object, graph_name } => Plan::Path {
            subject: subject@,
            path: path@,
            object: object@,
            graph_name: graph_name_view(graph_name),
        },
        GraphPattern::Graph { graph_name } => Plan::Graph { graph_name: graph_name@ },
        GraphPattern::Join { left, right, algorithm } => Plan::Join {
            left: Box::new(plan_view(*left)),
            right: Box::new(plan_view(*right)),
            keys: algorithm@,
        },
        GraphPattern::LeftJoin { left, right, expression, algorithm } => Plan::LeftJoin {
            left: Box::new(plan_view(*left)),
            right: Box::new(plan_view(*right)),
            expression: expr_view(expression),
            keys: algorithm@,
        },
        GraphPattern::Lateral { left, right } => Plan::Lateral {
            left: Box::new(plan_view(*left)),
            right: Box::new(plan_view(*right)),
        },
        GraphPattern::Filter { expression, inner } => Plan::Filter {
            expression: expr_view(expression),
            inner: Box::new(plan_view(*inner)),
        },
        GraphPattern::Union { inner } => Plan::Union { inner: plans_view(inner@) },
        GraphPattern::Extend { inner, variable, expression } => Plan::Extend {
            inner: Box::new(plan_view(*inner)),
            variable: variable@,
            expression: expr_view(expression),
        },
        GraphPattern::Minus { left, right, algorithm } => Plan::Minus {
            left: Box::new(plan_view(*left)),
            right: Box::new(plan_view(*right)),
            keys: algorithm@,
        },
        GraphPattern::Values { variables, bindings } => Plan::Values {
            variables: names(variables@),
            bindings: rows_view(bindings@),
        },
        GraphPattern::OrderBy { inner, expression } => Plan::OrderBy {
            inner: Box::new(plan_view(*inner)),
            expression: orders_view(expression@),
        },
        GraphPattern::Project { inner, variables } => Plan::Project {
            inner: Box::new(plan_view(*inner)),
            variables: names(variables@),
        },
        GraphPattern::Distinct { inner } => Plan::Distinct { inner: Box::new(plan_view(*inner)) },
        GraphPattern::Reduced { inner } => Plan::Reduced { inner: Box::new(plan_view(*inner)) },
        GraphPattern::Slice { inner, start, length } => Plan::Slice {
            inner: Box::new(plan_view(*inner)),
            start,
            length,
        },
        GraphPattern::Group { inner, variables, aggregates } => Plan::Group {
            inner: Box::new(plan_view(*inner)),
            variables: names(variables@),
            aggregates: aggregates_view(aggregates@),
        },
        GraphPattern::Service { name, inner, silent } => Plan::Service {
            name: name@,
            inner: Box::new(plan_view(*inner)),
            silent,
        },
    }
}

pub open spec fn plans_view(patterns: Seq<GraphPattern>) -> Seq<Plan>
    decreases patterns,
{
    Seq::new(
        patterns.len(),
        |i: int|
            if 0 <= i < patterns.len() {
                plan_view(patterns[i])
            } else {
                arbitrary()
            },
    )
}

impl View for Expression {
    type V = Expr;

    open spec fn view(&self) -> Expr {
        expr_view(*self)
    }
}

impl View for OrderExpression {
    type V = OrderExpr;

    open spec fn view(&self) -> OrderExpr {
        order_view(*self)
    }
}

impl View for AggregateExpression {
    type V = AggregateExpr;

    open spec fn view(&self) -> AggregateExpr {
        aggregate_view(*self)
    }
}

impl View for GraphPattern {
    type V = Plan;

    open spec fn view(&self) -> Plan {
        plan_view(*self)
    }
}

fn clone_row(row: &Vec<Option<GroundTerm>>) -> (r: Vec<Option<GroundTerm>>)
    ensures
        row_view(r) == row_view(*row),
{
    let mut copy: Vec<Option<GroundTerm>> = Vec::new();
    for i in 0..row.len()
        invariant
            copy@.len() == i,
            forall|j: int| 0 <= j < i ==> #[trigger] row_view(copy)[j] == row_view(*row)[j],
    {
        let ghost before = copy;
        copy.push(
            match &row[i] {
                Some(term) => Some(term.clone()),
                None => None,
            },
        );
        assert forall|j: int| 0 <= j < i + 1 implies #[trigger] row_view(copy)[j] == row_view(
            *row,
        )[j] by {
            if j < i {
                assert(row_view(copy)[j] == row_view(before)[j]);
            }
        }
    }
    assert(row_view(copy) =~= row_view(*row));
    copy
}

fn clone_rows(rows: &Vec<Vec<Option<GroundTerm>>>) -> (r: Vec<Vec<Option<GroundTerm>>>)
    ensures
        rows_view(r@) == rows_view(rows@),
{
    let mut copy: Vec<Vec<Option<GroundTerm>>> = Vec::new();
    for i in 0..rows.len()
        invariant
            copy@.len() == i,
            forall|j: int| 0 <= j < i ==> row_view(#[trigger] copy@[j]) == row_view(rows@[j]),
    {
        copy.push(clone_row(&rows[i]));
    }
    assert(rows_view(copy@) =~= rows_view(rows@));
    copy
}

fn clone_expressions(expressions: &Vec<Expression>) -> (r: Vec<Expression>)
    ensures
        exprs_view(r@) == exprs_view(expressions@),
    decreases expressions,
{
    let mut copy: Vec<Expression> = Vec::new();
    for i in 0..expressions.len()
        invariant
            copy@.len() == i,
            forall|j: int| 0 <= j < i ==> expr_view(#[trigger] copy@[j]) == expr_view(expressions@[j]),
    {
        copy.push(clone_expression(&expressions[i]));
    }
    assert(exprs_view(copy@) =~= exprs_view(expressions@));
    copy
}

fn clone_expression(expression: &Expression) -> (r: Expression)
    ensures
        r@ == expression@,
    decreases expression,
{
    match expression {
        Expression::NamedNode(node) => Expression::NamedNode(node.clone()),
        Expression::Literal(literal) => Expression::Literal(literal.clone()),
        Expression::Variable(variable) => Expression::Variable(variable.clone()),
        Expression::Or(inner) => Expression::Or(clone_expressions(inner)),
        Expression::And(inner) => Expression::And(clone_expressions(inner)),
        Expression::Equal(left, right) => Expression::Equal(
            Box::new(clone_expression(left)),
            Box::new(clone_expression(right)),
        ),
        Expression::SameTerm(left, right) => Expression::SameTerm(
            Box::new(clone_expression(left)),
            Box::new(clone_expression(right)),
        ),
        Expression::Greater(left, right) => Expression::Greater(
            Box::new(clone_expression(left)),
            Box::new(clone_expression(right)),
        ),
        Expression::GreaterOrEqual(left, right) => Expression::GreaterOrEqual(
            Box::new(clone_expression(left)),
            Box::new(clone_expression(right)),
        ),
        Expression::Less(left, right) => Expression::Less(
            Box::new(clone_expression(left)),
            Box::new(clone_expression(right)),
        ),
        Expression::LessOrEqual(left, right) => Expression::LessOrEqual(
            Box::new(clone_expression(left)),
            Box::new(clone_expression(right)),
        ),
        Expression::Add(left, right) => Expression::Add(
            Box::new(clone_expression(left)),
            Box::new(clone_expression(right)),
        ),
        Expression::Subtract(left, right) => Expression::Subtract(
            Box::new(clone_expression(left)),
            Box::new(clone_expression(right)),
        ),
        Expression::Multiply(left, right) => Expression::Multiply(
            Box::new(clone_expression(left)),
            Box::new(clone_expression(right)),
        ),
        Expression::Divide(left, right) => Expression::Divide(
            Box::new(clone_expression(left)),
            Box::new(clone_expression(right)),
        ),
        Expression::UnaryPlus(inner) => Expression::UnaryPlus(Box::new(clone_expression(inner))),
        Expression::UnaryMinus(inner) => Expression::UnaryMinus(Box::new(clone_expression(inner))),
        Expression::Not(inner) => Expression::Not(Box::new(clone_expression(inner))),
        Expression::Exists(inner) => Expression::Exists(Box::new(clone_pattern(inner))),
        Expression::Bound(variable) => Expression::Bound(variable.clone()),
        Expression::If(condition, then_case, else_case) => Expression::If(
            Box::new(clone_expression(condition)),
            Box::new(clone_expression(then_case)),
            Box::new(clone_expression(else_case)),
        ),
        Expression::Coalesce(inner) => Expression::Coalesce(clone_expressions(inner)),
        Expression::FunctionCall(name, arguments) => Expression::FunctionCall(
            name.clone(),
            clone_expressions(arguments),
        ),
    }
}

fn clone_criteria(criteria: &Vec<OrderExpression>) -> (r: Vec<OrderExpression>)
    ensures
        orders_view(r@) == orders_view(criteria@),
    decreases criteria,
{
    let mut copy: Vec<OrderExpression> = Vec::new();
    for i in 0..criteria.len()
        invariant
            copy@.len() == i,
            forall|j: int| 0 <= j < i ==> order_view(#[trigger] copy@[j]) == order_view(criteria@[j]),
    {
        copy.push(
            match &criteria[i] {
                OrderExpression::Asc(expression) => OrderExpression::Asc(
                    clone_expression(expression),
                ),
                OrderExpression::Desc(expression) => OrderExpression::Desc(
                    clone_expression(expression),
                ),
            },
        );
    }
    assert(orders_view(copy@) =~= orders_view(criteria@));
    copy
}

fn clone_aggregate(aggregate: &AggregateExpression) -> (r: AggregateExpression)
    ensures
        r@ == aggregate@,
    decreases aggregate,
{
    match aggregate {
        AggregateExpression::CountSolutions { distinct } => AggregateExpression::CountSolutions {
            distinct: *distinct,
        },
        AggregateExpression::FunctionCall {
            name,
            expr,
            distinct,
        } => AggregateExpression::FunctionCall {
            name: name.clone(),
            expr: Box::new(clone_expression(expr)),
            distinct: *distinct,
        },
    }
}

fn clone_aggregates(aggregates: &Vec<(Variable, AggregateExpression)>) -> (r: Vec<
    (Variable, AggregateExpression),
>)
    ensures
        aggregates_view(r@) == aggregates_view(aggregates@),
    decreases aggregates,
{
    let mut copy: Vec<(Variable, AggregateExpression)> = Vec::new();
    for i in 0..aggregates.len()
        invariant
            copy@.len() == i,
            forall|j: int|
                0 <= j < i ==> (#[trigger] copy@[j]).0@ == aggregates@[j].0@ && aggregate_view(
                    copy@[j].1,
                ) == aggregate_view(aggregates@[j].1),
    {
        assert(decreases_to!(aggregates@[i as int] => aggregates@[i as int].1));
        copy.push((aggregates[i].0.clone(), clone_aggregate(&aggregates[i].1)));
    }
    assert(aggregates_view(copy@) =~= aggregates_view(aggregates@));
    copy
}

fn clone_patterns(patterns: &Vec<GraphPattern>) -> (r: Vec<GraphPattern>)
    ensures
        plans_view(r@) == plans_view(patterns@),
    decreases patterns,
{
    let mut copy: Vec<GraphPattern> = Vec::new();
    for i in 0..patterns.len()
        invariant
            copy@.len() == i,
            forall|j: int| 0 <= j < i ==> plan_view(#[trigger] copy@[j]) == plan_view(patterns@[j]),
    {
        copy.push(clone_pattern(&patterns[i]));
    }
    assert(plans_view(copy@) =~= plans_view(patterns@));
    copy
}

fn clone_pattern(pattern: &GraphPattern) -> (r: GraphPattern)
    ensures
        r@ == pattern@,
    decreases pattern,
{
    match pattern {
        GraphPattern::QuadPattern { subject, predicate, object, graph_name } => {
            GraphPattern::QuadPattern {
                subject: subject.clone(),
                predicate: predicate.clone(),
                object: object.clone(),
                graph_name: clone_graph_name(graph_name),
            }
        },
        GraphPattern::Path { subject, path, object, graph_name } => GraphPattern::Path {
            subject: subject.clone(),
            path: path.clone(),
            object: object.clone(),
            graph_name: clone_graph_name(graph_name),
        },
        GraphPattern::Graph { graph_name } => GraphPattern::Graph {
            graph_name: graph_name.clone(),
        },
        GraphPattern::Join { left, right, algorithm } => GraphPattern::Join {
            left: Box::new(clone_pattern(left)),
            right: Box::new(clone_pattern(right)),
            algorithm: algorithm.clone(),
        },
        GraphPattern::LeftJoin { left, right, expression, algorithm } => GraphPattern::LeftJoin {
            left: Box::new(clone_pattern(left)),
            right: Box::new(clone_pattern(right)),
            expression: clone_expression(expression),
            algorithm: algorithm.clone(),
        },
        GraphPattern::Lateral { left, right } => GraphPattern::Lateral {
            left: Box::new(clone_pattern(left)),
            right: Box::new(clone_pattern(right)),
        },
        GraphPattern::Filter { expression, inner } => GraphPattern::Filter {
            expression: clone_expression(expression),
            inner: Box::new(clone_pattern(inner)),
        },
        GraphPattern::Union { inner } => GraphPattern::Union { inner: clone_patterns(inner) },
        GraphPattern::Extend { inner, variable, expression } => GraphPattern::Extend {
            inner: Box::new(clone_pattern(inner)),
            variable: variable.clone(),
            expression: clone_expression(expression),
        },
        GraphPattern::Minus { left, right, algorithm } => GraphPattern::Minus {
            left: Box::new(clone_pattern(left)),
            right: Box::new(clone_pattern(right)),
            algorithm: algorithm.clone(),
        },
        GraphPattern::Values { variables, bindings } => GraphPattern::Values {
            variables: clone_variables(variables),
            bindings: clone_rows(bindings),
        },
        GraphPattern::OrderBy { inner, expression } => GraphPattern::OrderBy {
            inner: Box::new(clone_pattern(inner)),
            expression: clone_criteria(expression),
        },
        GraphPattern::Project { inner, variables } => GraphPattern::Project {
            inner: Box::new(clone_pattern(inner)),
            variables: clone_variables(variables),
        },
        GraphPattern::Distinct { inner } => GraphPattern::Distinct {
            inner: Box::new(clone_pattern(inner)),
        },
        GraphPattern::Reduced { inner } => GraphPattern::Reduced {
            inner: Box::new(clone_pattern(inner)),
        },
        GraphPattern::Slice { inner, start, length } => GraphPattern::Slice {
            inner: Box::new(clone_pattern(inner)),
            start: *start,
            length: *length,
        },
        GraphPattern::Group { inner, variables, aggregates } => GraphPattern::Group {
            inner: Box::new(clone_pattern(inner)),
            variables: clone_variables(variables),
            aggregates: clone_aggregates(aggregates),
        },
        GraphPattern::Service { name, inner, silent } => GraphPattern::Service {
            name: name.clone(),
            inner: Box::new(clone_pattern(inner)),
            silent: *silent,
        },
    }
}

impl Clone for Expression {
    fn clone(&self) -> (r: Self)
        ensures
            r@ == self@,
    {
        clone_expression(self)
    }
}

impl Clone for OrderExpression {
    fn clone(&self) -> (r: Self)
        ensures
            r@ == self@,
    {
        match self {
            OrderExpression::Asc(expression) => OrderExpression::Asc(expression.clone()),
            OrderExpression::Desc(expression) => OrderExpression::Desc(expression.clone()),
        }
    }
}

impl Clone for AggregateExpression {
    fn clone(&self) -> (r: Self)
        ensures
            r@ == self@,
    {
        clone_aggregate(self)
    }
}

impl Clone for GraphPattern {
    fn clone(&self) -> (r: Self)
        ensures
            r@ == self@,
    {
        clone_pattern(self)
    }
}

/// A copy of a list of patterns.
pub fn clone_all(patterns: &Vec<GraphPattern>) -> (r: Vec<GraphPattern>)
    ensures
        plans_view(r@) == plans_view(patterns@),
{
    clone_patterns(patterns)
}

/// A copy of a list of expressions.
pub fn clone_all_expressions(expressions: &Vec<Expression>) -> (r: Vec<Expression>)
    ensures
        exprs_view(r@) == exprs_view(expressions@),
{
    clone_expressions(expressions)
}

impl From<NamedNode> for Expression {
    fn from(node: NamedNode) -> (r: Self) {
        Expression::NamedNode(node)
    }
}

impl vstd::std_specs::convert::FromSpecImpl<NamedNode> for Expression {
    open spec fn obeys_from_spec() -> bool {
        true
    }

    open spec fn from_spec(node: NamedNode) -> Self {
        Expression::NamedNode(node)
    }
}

impl From<Literal> for Expression {
    fn from(literal: Literal) -> (r: Self) {
        Expression::Literal(literal)
    }
}

impl vstd::std_specs::convert::FromSpecImpl<Literal> for Expression {
    open spec fn obeys_from_spec() -> bool {
        true
    }

    open spec fn from_spec(literal: Literal) -> Self {
        Expression::Literal(literal)
    }
}

impl From<Variable> for Expression {
    fn from(variable: Variable) -> (r: Self) {
        Expression::Variable(variable)
    }
}

impl vstd::std_specs::convert::FromSpecImpl<Variable> for Expression {
    open spec fn obeys_from_spec() -> bool {
        true
    }

    open spec fn from_spec(variable: Variable) -> Self {
        Expression::Variable(variable)
    }
}

/// A plan that matches the data directly, without combining other plans.
pub open spec fn is_atom(plan: Plan) -> bool {
    plan is QuadPattern || plan is Path || plan is Graph
}

/// Whether a pattern is the same as an atom.
pub fn same_as_atom(pattern: &GraphPattern, atom: &GraphPattern) -> (r: bool)
    requires
        is_atom(atom@),
    ensures
        r == (pattern@ == atom@),
{
    match (pattern, atom) {
        (
            GraphPattern::QuadPattern { subject: s, predicate: p, object: o, graph_name: g },
            GraphPattern::QuadPattern { subject, predicate, object, graph_name },
        ) => s.same(subject) && p.same(predicate) && o.same(object) && same_graph_name(
            g,
            graph_name,
        ),
        (
            GraphPattern::Path { subject: s, path: p, object: o, graph_name: g },
            GraphPattern::Path { subject, path, object, graph_name },
        ) => s.same(subject) && p.same(path) && o.same(object) && same_graph_name(g, graph_name),
        (GraphPattern::Graph { graph_name: g }, GraphPattern::Graph { graph_name }) => g.same(
            graph_name,
        ),
        _ => false,
    }
}

} // verus!
