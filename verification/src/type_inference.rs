//! What values a variable can have in the solutions of a plan.

use vstd::prelude::*;

use crate::algebra::{
    aggregates_view, exprs_view, plans_view, row_view, rows_view, AggregateExpr,
    AggregateExpression, Expr, Expression, Function, FunctionView, GraphPattern, Plan, Row,
};
use crate::term::{
    contains_variable, graph_name_view, names, GroundTerm, GroundTermPattern, GroundTermView,
    NamedNodePattern, NodePatternView, TermPatternView, Variable,
};

verus! {

/// The kinds of values that a variable can have, where `undef` stands for having none.
#[derive(Debug, Clone, Copy, PartialEq, Eq, Structural)]
pub struct VariableType {
    pub undef: bool,
    pub named_node: bool,
    pub blank_node: bool,
    pub literal: bool,
    pub triple: bool,
}

impl VariableType {
    #[verifier::allow_in_spec]
    pub fn of_undef() -> (r: VariableType)
        returns
            (VariableType {
        undef: true,
        named_node: false,
        blank_node: false,
        literal: false,
        triple: false,
    }),
    {
        VariableType {
        undef: true,
        named_node: false,
        blank_node: false,
        literal: false,
        triple: false,
    }
    }

    #[verifier::allow_in_spec]
    pub fn of_named_node() -> (r: VariableType)
        returns
            (VariableType {
        undef: false,
        named_node: true,
        blank_node: false,
        literal: false,
        triple: false,
    }),
    {
        VariableType {
        undef: false,
        named_node: true,
        blank_node: false,
        literal: false,
        triple: false,
    }
    }

    #[verifier::allow_in_spec]
    pub fn of_blank_node() -> (r: VariableType)
        returns
            (VariableType {
        undef: false,
        named_node: false,
        blank_node: true,
        literal: false,
        triple: false,
    }),
    {
        VariableType {
        undef: false,
        named_node: false,
        blank_node: true,
        literal: false,
        triple: false,
    }
    }

    #[verifier::allow_in_spec]
    pub fn of_literal() -> (r: VariableType)
        returns
            (VariableType {
        undef: false,
        named_node: false,
        blank_node: false,
        literal: true,
        triple: false,
    }),
    {
        VariableType {
        undef: false,
        named_node: false,
        blank_node: false,
        literal: true,
        triple: false,
    }
    }

    #[verifier::allow_in_spec]
    pub fn of_triple() -> (r: VariableType)
        returns
            (VariableType {
        undef: false,
        named_node: false,
        blank_node: false,
        literal: false,
        triple: true,
    }),
    {
        VariableType {
        undef: false,
        named_node: false,
        blank_node: false,
        literal: false,
        triple: true,
    }
    }

    /// What can be the subject of a triple.
    #[verifier::allow_in_spec]
    pub fn of_subject() -> (r: VariableType)
        returns
            (VariableType {
        undef: false,
        named_node: true,
        blank_node: true,
        literal: false,
        triple: false,
    }),
    {
        VariableType {
        undef: false,
        named_node: true,
        blank_node: true,
        literal: false,
        triple: false,
    }
    }

    /// Any term.
    #[verifier::allow_in_spec]
    pub fn of_term() -> (r: VariableType)
        returns
            (VariableType {
        undef: false,
        named_node: true,
        blank_node: true,
        literal: true,
        triple: true,
    }),
    {
        VariableType {
        undef: false,
        named_node: true,
        blank_node: true,
        literal: true,
        triple: true,
    }
    }

    /// Any term or none.
    #[verifier::allow_in_spec]
    pub fn of_anything() -> (r: VariableType)
        returns
            (VariableType {
        undef: true,
        named_node: true,
        blank_node: true,
        literal: true,
        triple: true,
    }),
    {
        VariableType {
        undef: true,
        named_node: true,
        blank_node: true,
        literal: true,
        triple: true,
    }
    }

    /// What one of two sides allows.
    pub open spec fn or_spec(self, other: Self) -> Self {
        VariableType {
            undef: self.undef || other.undef,
            named_node: self.named_node || other.named_node,
            blank_node: self.blank_node || other.blank_node,
            literal: self.literal || other.literal,
            triple: self.triple || other.triple,
        }
    }

    /// What two compatible sides allow: a kind that both have, or that one has
    /// where the other may have no value.
    pub open spec fn and_spec(self, other: Self) -> Self {
        VariableType {
            undef: self.undef && other.undef,
            named_node: self.named_node && other.named_node || self.undef && other.named_node
                || self.named_node && other.undef,
            blank_node: self.blank_node && other.blank_node || self.undef && other.blank_node
                || self.blank_node && other.undef,
            literal: self.literal && other.literal || self.undef && other.literal || self.literal
                && other.undef,
            triple: self.triple && other.triple || self.undef && other.triple || self.triple
                && other.undef,
        }
    }

    /// The same kinds, or no value.
    pub open spec fn optional_spec(self) -> Self {
        VariableType { undef: true, ..self }
    }

    /// What one of two sides allows.
    pub fn or(self, other: Self) -> (r: Self)
        ensures
            r == self.or_spec(other),
    {
        VariableType {
            undef: self.undef || other.undef,
            named_node: self.named_node || other.named_node,
            blank_node: self.blank_node || other.blank_node,
            literal: self.literal || other.literal,
            triple: self.triple || other.triple,
        }
    }

    /// What two compatible sides allow.
    pub fn and(self, other: Self) -> (r: Self)
        ensures
            r == self.and_spec(other),
    {
        VariableType {
            undef: self.undef && other.undef,
            named_node: self.named_node && other.named_node || self.undef && other.named_node
                || self.named_node && other.undef,
            blank_node: self.blank_node && other.blank_node || self.undef && other.blank_node
                || self.blank_node && other.undef,
            literal: self.literal && other.literal || self.undef && other.literal || self.literal
                && other.undef,
            triple: self.triple && other.triple || self.undef && other.triple || self.triple
                && other.undef,
        }
    }

    /// The same kinds, or no value.
    pub fn optional(self) -> (r: Self)
        ensures
            r == self.optional_spec(),
    {
        VariableType {
            undef: true,
            named_node: self.named_node,
            blank_node: self.blank_node,
            literal: self.literal,
            triple: self.triple,
        }
    }
}

/// The types of the variables that can have a value. No variable occurs twice.
pub type Types = Seq<(Seq<char>, VariableType)>;

/// No variable occurs twice.
pub open spec fn distinct_variables(types: Types) -> bool {
    forall|i: int, j: int|
        0 <= i < types.len() && 0 <= j < types.len() && i != j ==> (#[trigger] types[i]).0 != (
        #[trigger] types[j]).0
}

/// Where a variable stands, or -1.
pub open spec fn position(types: Types, variable: Seq<char>) -> int
    decreases types.len(),
{
    if types.len() == 0 {
        -1
    } else if types.last().0 == variable {
        types.len() - 1
    } else {
        position(types.drop_last(), variable)
    }
}

/// The type of a variable: one that is not listed has no value.
pub open spec fn type_of(types: Types, variable: Seq<char>) -> VariableType {
    let i = position(types, variable);
    if i < 0 {
        VariableType::of_undef()
    } else {
        types[i].1
    }
}

/// A position is in range and holds the variable; -1 means that nothing does.
pub proof fn lemma_position(types: Types, variable: Seq<char>)
    ensures
        -1 <= position(types, variable) < types.len(),
        position(types, variable) >= 0 ==> types[position(types, variable)].0 == variable,
        position(types, variable) < 0 ==> forall|i: int|
            0 <= i < types.len() ==> (#[trigger] types[i]).0 != variable,
    decreases types.len(),
{
    if types.len() > 0 && types.last().0 != variable {
        lemma_position(types.drop_last(), variable);
        if position(types, variable) < 0 {
            assert forall|i: int| 0 <= i < types.len() implies (#[trigger] types[i]).0
                != variable by {
                if i < types.len() - 1 {
                    assert(types.drop_last()[i].0 != variable);
                }
            }
        }
    }
}

/// The types where a variable also has type `t`.
pub open spec fn refine(types: Types, variable: Seq<char>, t: VariableType) -> Types {
    let i = position(types, variable);
    if i < 0 {
        if t == VariableType::of_undef() {
            types
        } else {
            types.push((variable, t))
        }
    } else {
        let both = t.and_spec(types[i].1);
        if both == VariableType::of_undef() {
            types.remove(i)
        } else {
            types.update(i, (variable, both))
        }
    }
}

/// The types where a variable has type `t`, whatever it had.
pub open spec fn assign(types: Types, variable: Seq<char>, t: VariableType) -> Types {
    let i = position(types, variable);
    if i < 0 {
        types.push((variable, t))
    } else {
        types.update(i, (variable, t))
    }
}

/// The types of the solutions that agree with both sides.
pub open spec fn intersect(types: Types, other: Types) -> Types
    decreases other.len(),
{
    if other.len() == 0 {
        types
    } else {
        refine(intersect(types, other.drop_last()), other.last().0, other.last().1)
    }
}

/// `types` where everything that `other` may leave without a value can be without.
pub open spec fn weaken(types: Types, other: Types) -> Types {
    types.map_values(
        |e: (Seq<char>, VariableType)|
            (
                e.0,
                if type_of(other, e.0).undef {
                    e.1.optional_spec()
                } else {
                    e.1
                },
            ),
    )
}

/// The entry of a variable after another side with type `t` is added.
pub open spec fn widen_variable(types: Types, variable: Seq<char>, t: VariableType) -> Types {
    let i = position(types, variable);
    if i < 0 {
        types.push((variable, t.optional_spec()))
    } else {
        types.update(i, (variable, types[i].1.or_spec(t)))
    }
}

pub open spec fn widen(types: Types, other: Types) -> Types
    decreases other.len(),
{
    if other.len() == 0 {
        types
    } else {
        widen_variable(widen(types, other.drop_last()), other.last().0, other.last().1)
    }
}

/// The types of the solutions of either side.
pub open spec fn unite(types: Types, other: Types) -> Types {
    widen(weaken(types, other), other)
}

/// The types where no variable needs to have a value.
pub open spec fn optional(types: Types) -> Types {
    types.map_values(|e: (Seq<char>, VariableType)| (e.0, e.1.optional_spec()))
}

/// The types of some of the variables.
pub open spec fn restrict(types: Types, variables: Seq<Seq<char>>) -> Types {
    types.filter(|e: (Seq<char>, VariableType)| variables.contains(e.0))
}

/// The types of the other variables.
pub open spec fn without(types: Types, variables: Seq<Seq<char>>) -> Types {
    types.filter(|e: (Seq<char>, VariableType)| !variables.contains(e.0))
}

/// The types after a projection: those of the projected variables from inside,
/// those of the other variables from around it.
pub open spec fn projected(types: Types, inner: Types, variables: Seq<Seq<char>>) -> Types {
    without(types, variables) + restrict(inner, variables)
}

/// The kinds of values in a column; a row that is too short has none there.
pub open spec fn column_type(bindings: Seq<Row>, column: int) -> VariableType {
    VariableType {
        undef: exists|r: int|
            0 <= r < bindings.len() && cell(#[trigger] bindings[r], column) is None,
        named_node: exists|r: int|
            0 <= r < bindings.len() && (cell(#[trigger] bindings[r], column) matches Some(term)
                && term is NamedNode),
        blank_node: false,
        literal: exists|r: int|
            0 <= r < bindings.len() && (cell(#[trigger] bindings[r], column) matches Some(term)
                && term is Literal),
        triple: exists|r: int|
            0 <= r < bindings.len() && (cell(#[trigger] bindings[r], column) matches Some(term)
                && term is Triple),
    }
}

pub open spec fn cell(row: Row, column: int) -> Option<GroundTermView> {
    if 0 <= column < row.len() {
        row[column]
    } else {
        None
    }
}

/// The types of a table of constants, by its first `columns` columns.
pub open spec fn infer_table(
    variables: Seq<Seq<char>>,
    bindings: Seq<Row>,
    columns: int,
    types: Types,
) -> Types
    decreases columns,
{
    if columns <= 0 {
        types
    } else {
        refine(
            infer_table(variables, bindings, columns - 1, types),
            variables[columns - 1],
            column_type(bindings, columns - 1),
        )
    }
}

pub open spec fn infer_node(pattern: NodePatternView, types: Types) -> Types {
    match pattern {
        NodePatternView::Variable(variable) => refine(types, variable, VariableType::of_named_node()),
        NodePatternView::NamedNode(_) => types,
    }
}

pub open spec fn infer_graph_name(graph_name: Option<NodePatternView>, types: Types) -> Types {
    match graph_name {
        Some(pattern) => infer_node(pattern, types),
        None => types,
    }
}

pub open spec fn infer_term(pattern: TermPatternView, is_object: bool, types: Types) -> Types
    decreases pattern,
{
    match pattern {
        TermPatternView::Variable(variable) => refine(
            types,
            variable,
            if is_object {
                VariableType::of_term()
            } else {
                VariableType::of_subject()
            },
        ),
        TermPatternView::Triple { subject, predicate, object } => infer_term(
            *object,
            true,
            infer_node(predicate, infer_term(*subject, false, types)),
        ),
        _ => types,
    }
}

/// Group keys keep their types, and an aggregate can give any value or none.
pub open spec fn infer_aggregates(
    aggregates: Seq<(Seq<char>, AggregateExpr)>,
    types: Types,
) -> Types
    decreases aggregates.len(),
{
    if aggregates.len() == 0 {
        types
    } else {
        assign(
            infer_aggregates(aggregates.drop_last(), types),
            aggregates.last().0,
            VariableType::of_anything(),
        )
    }
}

/// The types of the variables in the solutions of a plan that is evaluated
/// where the variables already have the given types.
pub open spec fn infer(plan: Plan, types: Types) -> Types
    decreases plan,
{
    match plan {
        Plan::Values { variables, bindings } => infer_table(
            variables,
            bindings,
            variables.len() as int,
            types,
        ),
        Plan::QuadPattern { subject, predicate, object, graph_name } => infer_graph_name(
            graph_name,
            infer_term(object, true, infer_node(predicate, infer_term(subject, false, types))),
        ),
        Plan::Path { subject, object, graph_name, .. } => infer_graph_name(
            graph_name,
            infer_term(object, true, infer_term(subject, true, types)),
        ),
        Plan::Graph { graph_name } => infer_node(graph_name, types),
        Plan::Join { left, right, .. } => intersect(infer(*left, types), infer(*right, types)),
        Plan::Lateral { left, right } => infer(*right, infer(*left, types)),
        Plan::LeftJoin { left, right, .. } => intersect(
            infer(*left, types),
            optional(infer(*right, types)),
        ),
        Plan::Minus { left, .. } => infer(*left, types),
        Plan::Union { inner } => infer_union(inner, types),
        Plan::Extend { inner, variable, expression } => {
            let inner_types = infer(*inner, types);
            refine(inner_types, variable, infer_expr(expression, inner_types))
        },
        Plan::Filter { inner, .. }
        | Plan::OrderBy { inner, .. }
        | Plan::Distinct { inner }
        | Plan::Reduced { inner }
        | Plan::Slice { inner, .. } => infer(*inner, types),
        Plan::Project { inner, variables } => projected(
            types,
            infer(*inner, types),
            variables,
        ),
        Plan::Group { inner, variables, aggregates } => infer_aggregates(
            aggregates,
            projected(types, infer(*inner, types), variables),
        ),
        Plan::Service { name, inner, silent } => {
            let inner_types = infer_node(name, infer(*inner, types));
            if silent {
                intersect(types, optional(inner_types))
            } else {
                inner_types
            }
        },
    }
}

pub open spec fn infer_union(inner: Seq<Plan>, types: Types) -> Types
    decreases inner,
{
    if inner.len() == 0 {
        seq![]
    } else if inner.len() == 1 {
        infer(inner[0], types)
    } else {
        unite(infer_union(inner.drop_last(), types), infer(inner[inner.len() - 1], types))
    }
}

/// The type of a call.
pub open spec fn infer_call(name: FunctionView, arity: nat) -> VariableType {
    match name {
        FunctionView::Datatype | FunctionView::Iri | FunctionView::Predicate => {
            VariableType::of_named_node().optional_spec()
        },
        FunctionView::Uuid => VariableType::of_named_node(),
        FunctionView::BNode => if arity == 0 {
            VariableType::of_blank_node()
        } else {
            VariableType::of_blank_node().optional_spec()
        },
        FunctionView::Rand | FunctionView::Now | FunctionView::StrUuid => VariableType::of_literal(),
        FunctionView::Triple => VariableType::of_triple().optional_spec(),
        FunctionView::Subject => VariableType::of_subject().optional_spec(),
        FunctionView::Object | FunctionView::Custom(_) => VariableType::of_anything(),
        _ => VariableType::of_literal().optional_spec(),
    }
}

/// The type of an expression over variables of the given types, where `undef`
/// stands for an error.
pub open spec fn infer_expr(expression: Expr, types: Types) -> VariableType
    decreases expression,
{
    match expression {
        Expr::NamedNode(_) => VariableType::of_named_node(),
        Expr::Literal(_) | Expr::Exists(_) | Expr::Bound(_) => VariableType::of_literal(),
        Expr::Variable(variable) => type_of(types, variable),
        Expr::Or(_)
        | Expr::And(_)
        | Expr::UnaryPlus(_)
        | Expr::UnaryMinus(_)
        | Expr::Not(_)
        | Expr::Equal(_, _)
        | Expr::Greater(_, _)
        | Expr::GreaterOrEqual(_, _)
        | Expr::Less(_, _)
        | Expr::LessOrEqual(_, _)
        | Expr::Add(_, _)
        | Expr::Subtract(_, _)
        | Expr::Multiply(_, _)
        | Expr::Divide(_, _) => VariableType::of_literal().optional_spec(),
        Expr::SameTerm(left, right) => if infer_expr(*left, types).undef || infer_expr(
            *right,
            types,
        ).undef {
            VariableType::of_literal().optional_spec()
        } else {
            VariableType::of_literal()
        },
        Expr::If(_, then_case, else_case) => infer_expr(*then_case, types).or_spec(
            infer_expr(*else_case, types),
        ).optional_spec(),
        Expr::Coalesce(inner) => infer_coalesce(inner, inner.len() as int, types),
        Expr::FunctionCall(name, arguments) => infer_call(name, arguments.len()),
    }
}

/// The type of the first value among the first `count` expressions.
pub open spec fn infer_coalesce(inner: Seq<Expr>, count: int, types: Types) -> VariableType
    decreases inner, count,
{
    if count <= 0 || count > inner.len() {
        VariableType::of_undef()
    } else {
        let before = infer_coalesce(inner, count - 1, types);
        if before.undef {
            let next = infer_expr(inner[count - 1], types);
            VariableType { undef: next.undef, ..before.or_spec(next) }
        } else {
            before
        }
    }
}

/// What holds of a refined list: it stays free of duplicates.
pub proof fn lemma_refine_distinct(types: Types, variable: Seq<char>, t: VariableType)
    requires
        distinct_variables(types),
    ensures
        distinct_variables(refine(types, variable, t)),
        distinct_variables(assign(types, variable, t)),
        distinct_variables(widen_variable(types, variable, t)),
{
    lemma_position(types, variable);
}

pub proof fn lemma_filter_distinct(types: Types, keep: spec_fn((Seq<char>, VariableType)) -> bool)
    requires
        distinct_variables(types),
    ensures
        distinct_variables(types.filter(keep)),
        forall|i: int|
            0 <= i < types.filter(keep).len() ==> exists|j: int|
                0 <= j < types.len() && types[j] == #[trigger] types.filter(keep)[i],
    decreases types.len(),
{
    reveal(Seq::filter);
    if types.len() > 0 {
        let shorter = types.drop_last();
        assert(distinct_variables(shorter));
        lemma_filter_distinct(shorter, keep);
        let kept = shorter.filter(keep);
        assert forall|i: int| 0 <= i < kept.len() implies exists|j: int|
            0 <= j < types.len() - 1 && types[j] == #[trigger] kept[i] by {
            let j = choose|j: int| 0 <= j < shorter.len() && shorter[j] == kept[i];
            assert(types[j] == kept[i]);
        }
        if keep(types.last()) {
            let all = kept.push(types.last());
            assert(types.filter(keep) == all);
            assert forall|i: int| 0 <= i < all.len() implies exists|j: int|
                0 <= j < types.len() && types[j] == #[trigger] all[i] by {
                if i < kept.len() {
                    let j = choose|j: int| 0 <= j < types.len() - 1 && types[j] == kept[i];
                    assert(types[j] == all[i]);
                } else {
                    assert(types[types.len() - 1] == all[i]);
                }
            }
        }
    }
}

pub proof fn lemma_filter_holds(types: Types, keep: spec_fn((Seq<char>, VariableType)) -> bool)
    ensures
        forall|i: int|
            0 <= i < types.filter(keep).len() ==> keep(#[trigger] types.filter(keep)[i]),
    decreases types.len(),
{
    reveal(Seq::filter);
    if types.len() > 0 {
        let shorter = types.drop_last();
        lemma_filter_holds(shorter, keep);
        let kept = shorter.filter(keep);
        assert forall|i: int| 0 <= i < types.filter(keep).len() implies keep(
            #[trigger] types.filter(keep)[i],
        ) by {
            if i < kept.len() {
                assert(types.filter(keep)[i] == kept[i]);
            }
        }
    }
}

/// The types of variables.
#[derive(Debug)]
pub struct VariableTypes {
    entries: Vec<(Variable, VariableType)>,
}

pub closed spec fn entries_view(entries: Seq<(Variable, VariableType)>) -> Types {
    entries.map_values(|e: (Variable, VariableType)| (e.0@, e.1))
}

impl View for VariableTypes {
    type V = Types;

    closed spec fn view(&self) -> Types {
        entries_view(self.entries@)
    }
}

fn find(entries: &Vec<(Variable, VariableType)>, variable: &Variable) -> (r: Option<usize>)
    ensures
        match r {
            Some(i) => i == position(entries_view(entries@), variable@),
            None => position(entries_view(entries@), variable@) < 0,
        },
{
    let ghost all = entries_view(entries@);
    let mut i: usize = entries.len();
    assert(all.take(i as int) =~= all);
    while i > 0
        invariant
            i <= entries.len(),
            all == entries_view(entries@),
            position(all, variable@) == position(all.take(i as int), variable@),
        decreases i,
    {
        i = i - 1;
        assert(all.take(i + 1).drop_last() =~= all.take(i as int));
        if entries[i].0.same(variable) {
            return Some(i);
        }
    }
    None
}

impl VariableTypes {
    #[verifier::type_invariant]
    closed spec fn well_formed(self) -> bool {
        distinct_variables(entries_view(self.entries@))
    }

    /// The types where no variable has a value.
    pub fn new() -> (r: Self)
        ensures
            r@ == Seq::<(Seq<char>, VariableType)>::empty(),
    {
        let entries: Vec<(Variable, VariableType)> = Vec::new();
        assert(entries_view(entries@) =~= seq![]);
        VariableTypes { entries }
    }

    /// The number of variables that can have a value.
    pub fn len(&self) -> (r: usize)
        ensures
            r == self@.len(),
            distinct_variables(self@),
    {
        proof {
            use_type_invariant(self);
        }
        self.entries.len()
    }

    /// One of the variables that can have a value.
    pub fn variable(&self, i: usize) -> (r: &Variable)
        requires
            i < self@.len(),
        ensures
            r@ == self@[i as int].0,
    {
        &self.entries[i].0
    }

    /// The type of one of the variables that can have a value.
    pub fn variable_type(&self, i: usize) -> (r: VariableType)
        requires
            i < self@.len(),
        ensures
            r == self@[i as int].1,
    {
        self.entries[i].1
    }

    /// The type of a variable.
    pub fn get(&self, variable: &Variable) -> (r: VariableType)
        ensures
            r == type_of(self@, variable@),
    {
        proof {
            lemma_position(self@, variable@);
        }
        match find(&self.entries, variable) {
            Some(i) => self.entries[i].1,
            None => VariableType::of_undef(),
        }
    }

    /// The types where a variable also has type `t`.
    pub fn refine(self, variable: Variable, t: VariableType) -> (r: Self)
        ensures
            r@ == refine(self@, variable@, t),
    {
        proof {
            use_type_invariant(&self);
            lemma_position(self@, variable@);
            lemma_refine_distinct(self@, variable@, t);
        }
        let ghost before = self@;
        let ghost name = variable@;
        let mut entries = self.entries;
        match find(&entries, &variable) {
            None => {
                if t != VariableType::of_undef() {
                    entries.push((variable, t));
                }
            },
            Some(i) => {
                let both = t.and(entries[i].1);
                if both == VariableType::of_undef() {
                    entries.remove(i);
                } else {
                    entries.set(i, (variable, both));
                }
            },
        }
        assert(entries_view(entries@) =~= refine(before, name, t));
        VariableTypes { entries }
    }

    /// The types where a variable has type `t`, whatever it had.
    pub fn assign(self, variable: Variable, t: VariableType) -> (r: Self)
        ensures
            r@ == assign(self@, variable@, t),
    {
        proof {
            use_type_invariant(&self);
            lemma_position(self@, variable@);
            lemma_refine_distinct(self@, variable@, t);
        }
        let ghost before = self@;
        let ghost name = variable@;
        let mut entries = self.entries;
        match find(&entries, &variable) {
            None => {
                entries.push((variable, t));
            },
            Some(i) => {
                entries.set(i, (variable, t));
            },
        }
        assert(entries_view(entries@) =~= assign(before, name, t));
        VariableTypes { entries }
    }

    fn widen_variable(self, variable: Variable, t: VariableType) -> (r: Self)
        ensures
            r@ == widen_variable(self@, variable@, t),
    {
        proof {
            use_type_invariant(&self);
            lemma_position(self@, variable@);
            lemma_refine_distinct(self@, variable@, t);
        }
        let ghost before = self@;
        let ghost name = variable@;
        let mut entries = self.entries;
        match find(&entries, &variable) {
            None => {
                entries.push((variable, t.optional()));
            },
            Some(i) => {
                let either = entries[i].1.or(t);
                entries.set(i, (variable, either));
            },
        }
        assert(entries_view(entries@) =~= widen_variable(before, name, t));
        VariableTypes { entries }
    }

    /// The types of the solutions that agree with both sides.
    pub fn intersect_with(self, other: Self) -> (r: Self)
        ensures
            r@ == intersect(self@, other@),
    {
        let ghost before = self@;
        let ghost given = other@;
        let mut result = self;
        for i in 0..other.entries.len()
            invariant
                given == other@,
                given == entries_view(other.entries@),
                result@ == intersect(before, given.take(i as int)),
        {
            assert(given.take(i + 1).drop_last() =~= given.take(i as int));
            result = result.refine(other.entries[i].0.clone(), other.entries[i].1);
        }
        assert(given.take(given.len() as int) =~= given);
        result
    }

    /// The types of the solutions of either side.
    pub fn union_with(self, other: Self) -> (r: Self)
        ensures
            r@ == unite(self@, other@),
    {
        proof {
            use_type_invariant(&self);
        }
        let ghost before = self@;
        let ghost given = other@;
        let mut entries: Vec<(Variable, VariableType)> = Vec::new();
        for i in 0..self.entries.len()
            invariant
                before == entries_view(self.entries@),
                given == other@,
                entries@.len() == i,
                forall|j: int|
                    0 <= j < i ==> entries_view(entries@)[j] == #[trigger] weaken(before, given)[j],
        {
            let t = self.entries[i].1;
            let ghost shorter = entries_view(entries@);
            entries.push(
                (
                    self.entries[i].0.clone(),
                    if other.get(&self.entries[i].0).undef {
                        t.optional()
                    } else {
                        t
                    },
                ),
            );
            assert forall|j: int| 0 <= j < i + 1 implies entries_view(entries@)[j]
                == #[trigger] weaken(before, given)[j] by {
                if j < i {
                    assert(entries_view(entries@)[j] == shorter[j]);
                } else {
                    assert(before[j] == (self.entries@[j].0@, self.entries@[j].1));
                }
            }
        }
        assert(entries_view(entries@) =~= weaken(before, given));
        assert forall|i: int, j: int|
            0 <= i < weaken(before, given).len() && 0 <= j < weaken(before, given).len() && i
                != j implies (#[trigger] weaken(before, given)[i]).0 != (#[trigger] weaken(
            before,
            given,
        )[j]).0 by {
            assert(before[i].0 != before[j].0);
        }
        let mut result = VariableTypes { entries };
        for i in 0..other.entries.len()
            invariant
                given == entries_view(other.entries@),
                result@ == widen(weaken(before, given), given.take(i as int)),
        {
            assert(given.take(i + 1).drop_last() =~= given.take(i as int));
            result = result.widen_variable(other.entries[i].0.clone(), other.entries[i].1);
        }
        assert(given.take(given.len() as int) =~= given);
        result
    }

    /// The types where no variable needs to have a value.
    pub fn into_optional(self) -> (r: Self)
        ensures
            r@ == optional(self@),
    {
        proof {
            use_type_invariant(&self);
        }
        let ghost before = self@;
        let mut entries: Vec<(Variable, VariableType)> = Vec::new();
        for i in 0..self.entries.len()
            invariant
                before == entries_view(self.entries@),
                entries@.len() == i,
                forall|j: int|
                    0 <= j < i ==> entries_view(entries@)[j] == #[trigger] optional(before)[j],
        {
            let ghost shorter = entries_view(entries@);
            entries.push((self.entries[i].0.clone(), self.entries[i].1.optional()));
            assert forall|j: int| 0 <= j < i + 1 implies entries_view(entries@)[j]
                == #[trigger] optional(before)[j] by {
                if j < i {
                    assert(entries_view(entries@)[j] == shorter[j]);
                } else {
                    assert(before[j] == (self.entries@[j].0@, self.entries@[j].1));
                }
            }
        }
        assert(entries_view(entries@) =~= optional(before));
        assert forall|i: int, j: int|
            0 <= i < optional(before).len() && 0 <= j < optional(before).len() && i
                != j implies (#[trigger] optional(before)[i]).0 != (#[trigger] optional(
            before,
        )[j]).0 by {
            assert(before[i].0 != before[j].0);
        }
        VariableTypes { entries }
    }

    /// The types after a projection: those of the projected variables from
    /// inside, those of the other variables from around it.
    pub fn project(self, inner: Self, variables: &Vec<Variable>) -> (r: Self)
        ensures
            r@ == projected(self@, inner@, names(variables@)),
    {
        let ghost outer_types = self@;
        let ghost inner_types = inner@;
        let ghost kept = names(variables@);
        let ghost drop = |e: (Seq<char>, VariableType)| !kept.contains(e.0);
        let ghost keep = |e: (Seq<char>, VariableType)| kept.contains(e.0);
        proof {
            use_type_invariant(&self);
            use_type_invariant(&inner);
            lemma_filter_distinct(outer_types, drop);
            lemma_filter_distinct(inner_types, keep);
            lemma_filter_holds(outer_types, drop);
            lemma_filter_holds(inner_types, keep);
        }
        let mut entries: Vec<(Variable, VariableType)> = Vec::new();
        assert(entries_view(entries@) =~= outer_types.take(0).filter(drop)) by {
            reveal(Seq::filter);
        }
        for i in 0..self.entries.len()
            invariant
                outer_types == entries_view(self.entries@),
                kept == names(variables@),
                drop == (|e: (Seq<char>, VariableType)| !kept.contains(e.0)),
                entries_view(entries@) == outer_types.take(i as int).filter(drop),
        {
            let ghost shorter = entries@;
            proof {
                reveal(Seq::filter);
                assert(outer_types.take(i + 1).drop_last() =~= outer_types.take(i as int));
                assert(outer_types[i as int] == (
                    self.entries@[i as int].0@,
                    self.entries@[i as int].1,
                ));
            }
            if !contains_variable(variables, &self.entries[i].0) {
                entries.push((self.entries[i].0.clone(), self.entries[i].1));
                assert(entries_view(entries@) =~= entries_view(shorter).push(
                    outer_types[i as int],
                ));
            }
        }
        assert(outer_types.take(outer_types.len() as int) =~= outer_types);
        let ghost rest = entries_view(entries@);
        assert(entries_view(entries@) =~= rest + inner_types.take(0).filter(keep)) by {
            reveal(Seq::filter);
        }
        for i in 0..inner.entries.len()
            invariant
                inner_types == entries_view(inner.entries@),
                kept == names(variables@),
                keep == (|e: (Seq<char>, VariableType)| kept.contains(e.0)),
                entries_view(entries@) == rest + inner_types.take(i as int).filter(keep),
        {
            let ghost shorter = entries@;
            proof {
                reveal(Seq::filter);
                assert(inner_types.take(i + 1).drop_last() =~= inner_types.take(i as int));
                assert(inner_types[i as int] == (
                    inner.entries@[i as int].0@,
                    inner.entries@[i as int].1,
                ));
            }
            if contains_variable(variables, &inner.entries[i].0) {
                entries.push((inner.entries[i].0.clone(), inner.entries[i].1));
                assert(entries_view(entries@) =~= entries_view(shorter).push(
                    inner_types[i as int],
                ));
                assert(entries_view(entries@) =~= rest + inner_types.take(i + 1).filter(keep));
            }
        }
        assert(inner_types.take(inner_types.len() as int) =~= inner_types);
        proof {
            let all = entries_view(entries@);
            assert(all == projected(outer_types, inner_types, kept));
            assert forall|i: int, j: int|
                0 <= i < all.len() && 0 <= j < all.len() && i != j implies (#[trigger] all[i]).0
                != (#[trigger] all[j]).0 by {
                let n = rest.len();
                if i < n && j < n {
                    assert(all[i] == rest[i] && all[j] == rest[j]);
                } else if i >= n && j >= n {
                    assert(all[i] == inner_types.filter(keep)[i - n]);
                    assert(all[j] == inner_types.filter(keep)[j - n]);
                } else if i < n {
                    assert(drop(rest[i]));
                    assert(keep(inner_types.filter(keep)[j - n]));
                } else {
                    assert(drop(rest[j]));
                    assert(keep(inner_types.filter(keep)[i - n]));
                }
            }
        }
        VariableTypes { entries }
    }
}

impl Clone for VariableTypes {
    fn clone(&self) -> (r: Self)
        ensures
            r@ == self@,
    {
        proof {
            use_type_invariant(self);
        }
        let mut entries: Vec<(Variable, VariableType)> = Vec::new();
        for i in 0..self.entries.len()
            invariant
                entries@.len() == i,
                forall|j: int|
                    0 <= j < i ==> (#[trigger] entries@[j]).0@ == self.entries@[j].0@
                        && entries@[j].1 == self.entries@[j].1,
        {
            entries.push((self.entries[i].0.clone(), self.entries[i].1));
        }
        assert(entries_view(entries@) =~= entries_view(self.entries@));
        VariableTypes { entries }
    }
}

impl Default for VariableTypes {
    fn default() -> (r: Self)
        ensures
            r@ == Seq::<(Seq<char>, VariableType)>::empty(),
    {
        VariableTypes::new()
    }
}

fn exec_column_type(bindings: &Vec<Vec<Option<GroundTerm>>>, column: usize) -> (r: VariableType)
    ensures
        r == column_type(rows_view(bindings@), column as int),
{
    let ghost rows = rows_view(bindings@);
    let mut t = VariableType {
        undef: false,
        named_node: false,
        blank_node: false,
        literal: false,
        triple: false,
    };
    assert(rows.take(0) =~= seq![]);
    for i in 0..bindings.len()
        invariant
            rows == rows_view(bindings@),
            t == column_type(rows.take(i as int), column as int),
    {
        let ghost longer = rows.take(i + 1);
        let ghost shorter = rows.take(i as int);
        let ghost before = t;
        let ghost last = cell(rows[i as int], column as int);
        let row = &bindings[i];
        assert(rows[i as int] == row_view(*row));
        if column < row.len() {
            assert(row_view(*row)[column as int] == match row@[column as int] {
                Some(term) => Some(term@),
                None => None,
            });
            match &row[column] {
                Some(GroundTerm::NamedNode(_)) => t.named_node = true,
                Some(GroundTerm::Literal(_)) => t.literal = true,
                Some(GroundTerm::Triple(_)) => t.triple = true,
                None => t.undef = true,
            }
        } else {
            t.undef = true;
        }
        proof {
            assert(longer[i as int] == rows[i as int]);
            assert forall|k: int| 0 <= k < i implies #[trigger] shorter[k] == longer[k] by {}
            let a = column_type(shorter, column as int);
            let b = column_type(longer, column as int);
            assert(b.undef == (a.undef || last is None)) by {
                if a.undef {
                    let k = choose|k: int|
                        0 <= k < shorter.len() && cell(#[trigger] shorter[k], column as int) is None;
                    assert(cell(longer[k], column as int) is None);
                }
                if last is None {
                    assert(cell(longer[i as int], column as int) is None);
                }
            }
            assert(b.named_node == (a.named_node || (last matches Some(x) && x is NamedNode))) by {
                if a.named_node {
                    let k = choose|k: int|
                        0 <= k < shorter.len() && (cell(#[trigger] shorter[k], column as int)
                            matches Some(x) && x is NamedNode);
                    assert(cell(longer[k], column as int) matches Some(x) && x is NamedNode);
                }
            }
            assert(b.literal == (a.literal || (last matches Some(x) && x is Literal))) by {
                if a.literal {
                    let k = choose|k: int|
                        0 <= k < shorter.len() && (cell(#[trigger] shorter[k], column as int)
                            matches Some(x) && x is Literal);
                    assert(cell(longer[k], column as int) matches Some(x) && x is Literal);
                }
            }
            assert(b.triple == (a.triple || (last matches Some(x) && x is Triple))) by {
                if a.triple {
                    let k = choose|k: int|
                        0 <= k < shorter.len() && (cell(#[trigger] shorter[k], column as int)
                            matches Some(x) && x is Triple);
                    assert(cell(longer[k], column as int) matches Some(x) && x is Triple);
                }
            }
        }
    }
    assert(rows.take(rows.len() as int) =~= rows);
    t
}

fn infer_table_types(
    variables: &Vec<Variable>,
    bindings: &Vec<Vec<Option<GroundTerm>>>,
    types: VariableTypes,
) -> (r: VariableTypes)
    ensures
        r@ == infer_table(
            names(variables@),
            rows_view(bindings@),
            variables@.len() as int,
            types@,
        ),
{
    let ghost before = types@;
    let mut types = types;
    for i in 0..variables.len()
        invariant
            types@ == infer_table(names(variables@), rows_view(bindings@), i as int, before),
    {
        assert(names(variables@)[i as int] == variables@[i as int]@);
        let t = exec_column_type(bindings, i);
        types = types.refine(variables[i].clone(), t);
    }
    types
}

fn infer_node_types(pattern: &NamedNodePattern, types: VariableTypes) -> (r: VariableTypes)
    ensures
        r@ == infer_node(pattern@, types@),
{
    match pattern {
        NamedNodePattern::Variable(variable) => types.refine(
            variable.clone(),
            VariableType::of_named_node(),
        ),
        NamedNodePattern::NamedNode(_) => types,
    }
}

fn infer_graph_name_types(graph_name: &Option<NamedNodePattern>, types: VariableTypes) -> (r:
    VariableTypes)
    ensures
        r@ == infer_graph_name(graph_name_view(*graph_name), types@),
{
    match graph_name {
        Some(pattern) => infer_node_types(pattern, types),
        None => types,
    }
}

fn infer_term_types(pattern: &GroundTermPattern, is_object: bool, types: VariableTypes) -> (r:
    VariableTypes)
    ensures
        r@ == infer_term(pattern@, is_object, types@),
    decreases pattern,
{
    match pattern {
        GroundTermPattern::Variable(variable) => types.refine(
            variable.clone(),
            if is_object {
                VariableType::of_term()
            } else {
                VariableType::of_subject()
            },
        ),
        GroundTermPattern::Triple(triple) => {
            let types = infer_term_types(&triple.subject, false, types);
            let types = infer_node_types(&triple.predicate, types);
            infer_term_types(&triple.object, true, types)
        },
        GroundTermPattern::NamedNode(_) | GroundTermPattern::Literal(_) => types,
    }
}

fn infer_aggregate_types(
    aggregates: &Vec<(Variable, AggregateExpression)>,
    types: VariableTypes,
) -> (r: VariableTypes)
    ensures
        r@ == infer_aggregates(aggregates_view(aggregates@), types@),
{
    let ghost given = aggregates_view(aggregates@);
    let ghost before = types@;
    let mut types = types;
    for i in 0..aggregates.len()
        invariant
            given == aggregates_view(aggregates@),
            types@ == infer_aggregates(given.take(i as int), before),
    {
        proof {
            assert(given[i as int].0 == aggregates@[i as int].0@);
            assert(given.take(i + 1).drop_last() =~= given.take(i as int));
        }
        types = types.assign(aggregates[i].0.clone(), VariableType::of_anything());
    }
    assert(given.take(given.len() as int) =~= given);
    types
}

fn infer_union_types(patterns: &Vec<GraphPattern>, types: VariableTypes) -> (r: VariableTypes)
    ensures
        r@ == infer_union(plans_view(patterns@), types@),
    decreases patterns,
{
    let ghost given = plans_view(patterns@);
    if patterns.len() == 0 {
        return VariableTypes::new();
    }
    let mut result = infer_graph_pattern_types(&patterns[0], types.clone());
    assert(given.take(1)[0] == patterns@[0]@);
    for i in 1..patterns.len()
        invariant
            patterns@.len() > 0,
            given == plans_view(patterns@),
            result@ == infer_union(given.take(i as int), types@),
    {
        proof {
            assert(given[i as int] == patterns@[i as int]@);
            assert(given.take(i + 1).drop_last() =~= given.take(i as int));
        }
        let next = infer_graph_pattern_types(&patterns[i], types.clone());
        result = result.union_with(next);
    }
    assert(given.take(given.len() as int) =~= given);
    result
}

/// The types of the variables in the solutions of a pattern that is evaluated
/// where the variables already have the given types.
pub fn infer_graph_pattern_types(pattern: &GraphPattern, types: VariableTypes) -> (r:
    VariableTypes)
    ensures
        r@ == infer(pattern@, types@),
    decreases pattern,
{
    match pattern {
        GraphPattern::Values { variables, bindings } => infer_table_types(
            variables,
            bindings,
            types,
        ),
        GraphPattern::QuadPattern { subject, predicate, object, graph_name } => {
            let types = infer_term_types(subject, false, types);
            let types = infer_node_types(predicate, types);
            let types = infer_term_types(object, true, types);
            infer_graph_name_types(graph_name, types)
        },
        GraphPattern::Path { subject, object, graph_name, .. } => {
            let types = infer_term_types(subject, true, types);
            let types = infer_term_types(object, true, types);
            infer_graph_name_types(graph_name, types)
        },
        GraphPattern::Graph { graph_name } => infer_node_types(graph_name, types),
        GraphPattern::Join { left, right, .. } => {
            let left_types = infer_graph_pattern_types(left, types.clone());
            let right_types = infer_graph_pattern_types(right, types);
            left_types.intersect_with(right_types)
        },
        GraphPattern::Lateral { left, right } => {
            let left_types = infer_graph_pattern_types(left, types);
            infer_graph_pattern_types(right, left_types)
        },
        GraphPattern::LeftJoin { left, right, .. } => {
            let right_types = infer_graph_pattern_types(right, types.clone());
            let left_types = infer_graph_pattern_types(left, types);
            left_types.intersect_with(right_types.into_optional())
        },
        GraphPattern::Minus { left, .. } => infer_graph_pattern_types(left, types),
        GraphPattern::Union { inner } => infer_union_types(inner, types),
        GraphPattern::Extend { inner, variable, expression } => {
            let inner_types = infer_graph_pattern_types(inner, types);
            let t = infer_expression_type(expression, &inner_types);
            inner_types.refine(variable.clone(), t)
        },
        GraphPattern::Filter { inner, .. }
        | GraphPattern::OrderBy { inner, .. }
        | GraphPattern::Distinct { inner }
        | GraphPattern::Reduced { inner }
        | GraphPattern::Slice { inner, .. } => infer_graph_pattern_types(inner, types),
        GraphPattern::Project { inner, variables } => {
            let inner_types = infer_graph_pattern_types(inner, types.clone());
            types.project(inner_types, variables)
        },
        GraphPattern::Group { inner, variables, aggregates } => {
            let inner_types = infer_graph_pattern_types(inner, types.clone());
            infer_aggregate_types(aggregates, types.project(inner_types, variables))
        },
        GraphPattern::Service { name, inner, silent } => {
            let inner_types = infer_graph_pattern_types(inner, types.clone());
            let inner_types = infer_node_types(name, inner_types);
            if *silent {
                types.intersect_with(inner_types.into_optional())
            } else {
                inner_types
            }
        },
    }
}

fn infer_coalesce_type(inner: &Vec<Expression>, types: &VariableTypes) -> (r: VariableType)
    ensures
        r == infer_coalesce(exprs_view(inner@), inner@.len() as int, types@),
    decreases inner,
{
    let ghost given = exprs_view(inner@);
    let mut t = VariableType::of_undef();
    for i in 0..inner.len()
        invariant
            given == exprs_view(inner@),
            t == infer_coalesce(given, i as int, types@),
    {
        if t.undef {
            assert(given[i as int] == inner@[i as int]@);
            let next = infer_expression_type(&inner[i], types);
            let either = t.or(next);
            t = VariableType {
                undef: next.undef,
                named_node: either.named_node,
                blank_node: either.blank_node,
                literal: either.literal,
                triple: either.triple,
            };
        }
    }
    t
}

fn infer_call_type(name: &Function, arity: usize) -> (r: VariableType)
    ensures
        r == infer_call(name@, arity as nat),
{
    match name {
        Function::Datatype | Function::Iri | Function::Predicate => {
            VariableType::of_named_node().optional()
        },
        Function::Uuid => VariableType::of_named_node(),
        Function::BNode => {
            if arity == 0 {
                VariableType::of_blank_node()
            } else {
                VariableType::of_blank_node().optional()
            }
        },
        Function::Rand | Function::Now | Function::StrUuid => VariableType::of_literal(),
        Function::Triple => VariableType::of_triple().optional(),
        Function::Subject => VariableType::of_subject().optional(),
        Function::Object | Function::Custom(_) => VariableType::of_anything(),
        _ => VariableType::of_literal().optional(),
    }
}

/// The type of an expression over variables of the given types.
pub fn infer_expression_type(expression: &Expression, types: &VariableTypes) -> (r: VariableType)
    ensures
        r == infer_expr(expression@, types@),
    decreases expression,
{
    match expression {
        Expression::NamedNode(_) => VariableType::of_named_node(),
        Expression::Literal(_) | Expression::Exists(_) | Expression::Bound(_) => {
            VariableType::of_literal()
        },
        Expression::Variable(variable) => types.get(variable),
        Expression::Or(_)
        | Expression::And(_)
        | Expression::UnaryPlus(_)
        | Expression::UnaryMinus(_)
        | Expression::Not(_)
        | Expression::Equal(_, _)
        | Expression::Greater(_, _)
        | Expression::GreaterOrEqual(_, _)
        | Expression::Less(_, _)
        | Expression::LessOrEqual(_, _)
        | Expression::Add(_, _)
        | Expression::Subtract(_, _)
        | Expression::Multiply(_, _)
        | Expression::Divide(_, _) => VariableType::of_literal().optional(),
        Expression::SameTerm(left, right) => {
            if infer_expression_type(left, types).undef || infer_expression_type(
                right,
                types,
            ).undef {
                VariableType::of_literal().optional()
            } else {
                VariableType::of_literal()
            }
        },
        Expression::If(_, then_case, else_case) => {
            let then_type = infer_expression_type(then_case, types);
            let else_type = infer_expression_type(else_case, types);
            then_type.or(else_type).optional()
        },
        Expression::Coalesce(inner) => infer_coalesce_type(inner, types),
        Expression::FunctionCall(name, arguments) => {
            assert(exprs_view(arguments@).len() == arguments@.len());
            infer_call_type(name, arguments.len())
        },
    }
}

} // verus!
