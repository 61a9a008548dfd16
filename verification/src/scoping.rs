//! Which plans mean the same when more variables get a value from outside.

use vstd::prelude::*;

use crate::algebra::{Expr, Plan, Row};
use crate::builders::truth;
use crate::lookups::{any_expr_has_subclass_path, expr_has_subclass_path, has_subclass_path};
use crate::scope::{
    all_hygienic, all_hygienic_exprs, all_proper_exprs, binds, gives_literal, has_kind, hygienic,
    hygienic_expr, is_proper, lemma_hygienic_expr_less, lemma_hygienic_less, never_nan, proper_expr,
};
use crate::semantics::hidden;
use crate::term::TermPatternView;
use crate::type_inference::{column_type, VariableType};
use crate::variables::{
    aggregate_names, expr_variables, graph_name_variables, node_variables, plan_variables,
    plans_variables, term_variables,
};

verus! {

/// A set of variables.
pub type Names = Set<Seq<char>>;

/// Whether an expression contains an `EXISTS`.
pub open spec fn contains_exists(expression: Expr) -> bool
    decreases expression,
{
    match expression {
        Expr::NamedNode(_) | Expr::Literal(_) | Expr::Variable(_) | Expr::Bound(_) => false,
        Expr::Or(inner)
        | Expr::And(inner)
        | Expr::Coalesce(inner)
        | Expr::FunctionCall(_, inner) => any_contains_exists(inner),
        Expr::Equal(left, right)
        | Expr::SameTerm(left, right)
        | Expr::Greater(left, right)
        | Expr::GreaterOrEqual(left, right)
        | Expr::Less(left, right)
        | Expr::LessOrEqual(left, right)
        | Expr::Add(left, right)
        | Expr::Subtract(left, right)
        | Expr::Multiply(left, right)
        | Expr::Divide(left, right) => contains_exists(*left) || contains_exists(*right),
        Expr::UnaryPlus(inner) | Expr::UnaryMinus(inner) | Expr::Not(inner) => contains_exists(
            *inner,
        ),
        Expr::If(condition, then_case, else_case) => contains_exists(*condition) || contains_exists(
            *then_case,
        ) || contains_exists(*else_case),
        Expr::Exists(_) => true,
    }
}

pub open spec fn any_contains_exists(expressions: Seq<Expr>) -> bool
    decreases expressions,
{
    exists|i: int| 0 <= i < expressions.len() && contains_exists(#[trigger] expressions[i])
}

/// The variables of a set that a plan uses have a value anyway.
pub open spec fn covers(used: Names, late: Names, sure: Names) -> bool {
    used.intersect(late).subset_of(sure)
}

/// Every part of a condition that contains an `EXISTS` uses only such variables
/// of those that may get a value late that have one anyway.
pub open spec fn exists_covered(expression: Expr, late: Names, sure: Names) -> bool
    decreases expression,
{
    match expression {
        Expr::And(inner) => all_exists_covered(inner, late, sure),
        _ => contains_exists(expression) ==> covers(expr_variables(expression), late, sure),
    }
}

pub open spec fn all_exists_covered(expressions: Seq<Expr>, late: Names, sure: Names) -> bool
    decreases expressions,
{
    forall|i: int|
        0 <= i < expressions.len() ==> exists_covered(#[trigger] expressions[i], late, sure)
}

/// A plan that has the same solutions whether some variables get a value before
/// or after it is evaluated. The variables in `sure` have one before.
pub open spec fn steady(plan: Plan, late: Names, sure: Names) -> bool
    decreases plan,
{
    match plan {
        Plan::QuadPattern { .. }
        | Plan::Path { .. }
        | Plan::Graph { .. }
        | Plan::Values { .. }
        | Plan::Service { .. } => true,
        Plan::Join { left, right, .. } => steady(*left, late, sure) && steady(*right, late, sure),
        Plan::Lateral { left, right } => steady(*left, late, sure) && steady(
            *right,
            late,
            sure.union(binds(*left)),
        ),
        Plan::LeftJoin { left, right, expression, .. } => {
            &&& steady(*left, late, sure)
            &&& steady(*right, late, sure)
            &&& covers(plan_variables(*right), late, sure.union(binds(*left)))
            &&& covers(
                expr_variables(expression),
                late,
                sure.union(binds(*left)).union(binds(*right)),
            )
        },
        Plan::Filter { inner, expression } => {
            &&& steady(*inner, late, sure)
            &&& covers(expr_variables(expression), late, sure.union(binds(*inner)))
        },
        Plan::Extend { inner, expression, .. } => {
            &&& steady(*inner, late, sure)
            &&& covers(expr_variables(expression), late, sure.union(binds(*inner)))
        },
        Plan::Union { inner } => all_steady(inner, late, sure),
        Plan::Minus { left, right, .. } => {
            &&& steady(*left, late, sure)
            &&& plan_variables(*right).disjoint(late)
        },
        Plan::OrderBy { inner, .. } => steady(*inner, late, sure),
        Plan::Distinct { inner } | Plan::Reduced { inner } => {
            &&& steady(*inner, late, sure)
            &&& covers(plan_variables(*inner), late, sure.union(binds(*inner)))
        },
        Plan::Slice { inner, .. } => plan_variables(*inner).disjoint(late),
        Plan::Project { inner, variables } => steady(
            *inner,
            late.difference(hidden(*inner, variables)),
            sure.difference(hidden(*inner, variables)),
        ),
        Plan::Group { inner, variables, aggregates } => {
            ||| plan_variables(plan).disjoint(late)
            ||| {
                &&& variables.len() > 0
                &&& aggregate_names(aggregates).disjoint(late)
                &&& covers(variables.to_set(), late, sure.union(binds(*inner)))
                &&& steady(
                    *inner,
                    late.difference(hidden(*inner, variables)),
                    sure.difference(hidden(*inner, variables)),
                )
            }
        },
    }
}

pub open spec fn all_steady(plans: Seq<Plan>, late: Names, sure: Names) -> bool
    decreases plans,
{
    forall|i: int| 0 <= i < plans.len() ==> steady(#[trigger] plans[i], late, sure)
}

/// The late variables for which the right side of a left join has to be steady. A
/// loop gives no value to others: the types tell that the right side may bind them.
pub open spec fn exposed(left: Plan, right: Plan, late: Names) -> Names {
    late.intersect(loose_variables(right).union(plan_variables(left)))
}

/// The right side of a left join can be evaluated before some variables get a value
/// or after. Where that matters for a variable that the left side need not bind, no
/// value that is known already is copied.
pub open spec fn waits(left: Plan, right: Plan, sure: Names, outside: Names, late: Names) -> bool {
    let few = exposed(left, right, late.difference(sure));
    &&& steady(right, few, sure)
    &&& few.subset_of(binds(left)) || copied_variables(right).disjoint(
        outside.union(late).union(plan_variables(left)),
    )
}

/// A plan whose joins can be evaluated in any order and as loops: where the
/// variables in `sure` have a value from outside, those in `outside` may have
/// one, and those in `late` may get one when the plan is evaluated in a loop.
///
/// Projections hide no variable that has a value from outside. The right side of
/// a left join that other plans are joined with can wait for values from them. The
/// left side can be joined with a right side that binds nothing for sure. An
/// `EXISTS` does not use variables that only other joined plans bind. One that
/// follows the subclass relation is plain or uses fewer variables than the
/// threshold. In a join it does not filter a plan that binds nothing. A filter is no
/// ill-typed boolean constant.
pub open spec fn scoped(
    plan: Plan,
    sure: Names,
    outside: Names,
    late: Names,
    threshold: nat,
) -> bool
    decreases plan,
{
    match plan {
        Plan::QuadPattern { .. }
        | Plan::Path { .. }
        | Plan::Graph { .. }
        | Plan::Values { .. }
        | Plan::Service { .. } => true,
        Plan::Join { left, right, .. } => {
            &&& scoped(*left, sure, outside, late.union(plan_variables(*right)), threshold)
            &&& scoped(*right, sure, outside, late.union(plan_variables(*left)), threshold)
        },
        Plan::Lateral { left, right } => {
            &&& scoped(*left, sure, outside, late, threshold)
            &&& scoped(
                *right,
                sure.union(binds(*left)),
                outside.union(plan_variables(*left)),
                late,
                threshold,
            )
        },
        Plan::LeftJoin { left, right, expression, .. } => {
            &&& scoped(*left, sure, outside, late, threshold)
            &&& scoped(
                *right,
                sure,
                outside.union(late),
                late.union(plan_variables(*left)),
                threshold,
            )
            &&& binds(*right) == Set::<Seq<char>>::empty() ==> scoped(
                *left,
                sure,
                outside,
                late.union(plan_variables(*right)),
                threshold,
            )
            &&& late == Set::<Seq<char>>::empty() || waits(*left, *right, sure, outside, late)
            &&& exists_covered(expression, late, sure.union(binds(*left)).union(binds(*right)))
            &&& scoped_expr(
                expression,
                sure.union(binds(*left)).union(binds(*right)),
                outside.union(late).union(plan_variables(*left)).union(plan_variables(*right)),
                threshold,
            )
        },
        Plan::Filter { inner, expression } => {
            &&& scoped(*inner, sure, outside, late, threshold)
            &&& exists_covered(expression, late, sure.union(binds(*inner)))
            &&& proper_expr(expression)
            &&& scoped_expr(
                expression,
                sure.union(binds(*inner)),
                outside.union(late).union(plan_variables(*inner)),
                threshold,
            )
            &&& binds(*inner) == Set::<Seq<char>>::empty() && late != Set::<Seq<char>>::empty()
                ==> !expr_has_subclass_path(expression)
        },
        Plan::Extend { inner, expression, .. } => {
            &&& scoped(*inner, sure, outside, late, threshold)
            &&& exists_covered(expression, late, sure.union(binds(*inner)))
            &&& scoped_expr(
                expression,
                sure.union(binds(*inner)),
                outside.union(late).union(plan_variables(*inner)),
                threshold,
            )
        },
        Plan::Union { inner } => all_scoped(inner, sure, outside, late, threshold),
        Plan::Minus { left, right, .. } => {
            &&& scoped(*left, sure, outside, late, threshold)
            &&& scoped(*right, sure, outside, set![], threshold)
        },
        Plan::OrderBy { inner, .. } | Plan::Slice { inner, .. } => scoped(
            *inner,
            sure,
            outside,
            if does_nothing(plan) {
                late
            } else {
                set![]
            },
            threshold,
        ),
        Plan::Distinct { inner } | Plan::Reduced { inner } => scoped(
            *inner,
            sure,
            outside,
            set![],
            threshold,
        ),
        Plan::Project { inner, variables } | Plan::Group { inner, variables, .. } => {
            &&& scoped(*inner, sure, outside, set![], threshold)
            &&& hidden(*inner, variables).disjoint(outside)
        },
    }
}

/// Whether a plan sorts by nothing, or takes all solutions.
pub open spec fn does_nothing(plan: Plan) -> bool {
    match plan {
        Plan::OrderBy { expression, .. } => expression.len() == 0,
        Plan::Slice { start, length, .. } => start == 0 && length is None,
        _ => false,
    }
}

/// Whether no projection or grouping hides a variable of a plan.
pub open spec fn hides_nothing(plan: Plan) -> bool {
    forall|v: Seq<char>| !#[trigger] hidden_variables(plan).contains(v)
}

/// A plan without `EXISTS` and without hidden variables in loops, whose left joins
/// have a right side that does no more than join and unite, and no condition.
pub open spec fn plain(plan: Plan) -> bool
    decreases plan,
{
    match plan {
        Plan::QuadPattern { .. }
        | Plan::Path { .. }
        | Plan::Graph { .. }
        | Plan::Values { .. }
        | Plan::Service { .. } => true,
        Plan::Join { left, right, .. } | Plan::Minus { left, right, .. } => plain(*left) && plain(
            *right,
        ),
        Plan::Lateral { left, right } => {
            &&& plain(*left)
            &&& plain(*right)
            &&& hides_nothing(*right)
        },
        Plan::Filter { inner, expression } | Plan::Extend { inner, expression, .. } => {
            plain(*inner) && plain_expr(expression)
        },
        Plan::Union { inner } => all_plain(inner),
        Plan::OrderBy { inner, .. }
        | Plan::Distinct { inner }
        | Plan::Reduced { inner }
        | Plan::Slice { inner, .. }
        | Plan::Project { inner, .. }
        | Plan::Group { inner, .. } => plain(*inner),
        Plan::LeftJoin { left, right, expression, .. } => {
            &&& plain(*left)
            &&& plain(*right)
            &&& is_bare(*right)
            &&& expression == truth(true)
        },
    }
}

pub open spec fn all_plain(plans: Seq<Plan>) -> bool
    decreases plans,
{
    forall|i: int| 0 <= i < plans.len() ==> plain(#[trigger] plans[i])
}

/// An expression without `EXISTS`, whose boolean constants are well-typed, and in
/// which the number that does not equal itself is not compared with itself.
pub open spec fn plain_expr(expression: Expr) -> bool
    decreases expression,
{
    match expression {
        Expr::NamedNode(_) | Expr::Variable(_) | Expr::Bound(_) => true,
        Expr::Literal(literal) => is_proper(literal),
        Expr::Or(inner)
        | Expr::And(inner)
        | Expr::Coalesce(inner)
        | Expr::FunctionCall(_, inner) => all_plain_exprs(inner),
        Expr::Equal(left, right) => plain_expr(*left) && plain_expr(*right) && (never_nan(*left)
            || never_nan(*right)),
        Expr::SameTerm(left, right)
        | Expr::Greater(left, right)
        | Expr::GreaterOrEqual(left, right)
        | Expr::Less(left, right)
        | Expr::LessOrEqual(left, right)
        | Expr::Add(left, right)
        | Expr::Subtract(left, right)
        | Expr::Multiply(left, right)
        | Expr::Divide(left, right) => plain_expr(*left) && plain_expr(*right),
        Expr::UnaryPlus(inner) | Expr::UnaryMinus(inner) | Expr::Not(inner) => plain_expr(*inner),
        Expr::If(condition, then_case, else_case) => plain_expr(*condition) && plain_expr(
            *then_case,
        ) && plain_expr(*else_case),
        Expr::Exists(_) => false,
    }
}

pub open spec fn all_plain_exprs(expressions: Seq<Expr>) -> bool
    decreases expressions,
{
    forall|i: int| 0 <= i < expressions.len() ==> plain_expr(#[trigger] expressions[i])
}

/// What is kept track of in a plan: a property path that it follows, a variable
/// that a projection or grouping in it hides, one that has a value in a part of it
/// that is never a node, or never a literal, one whose value may become that of
/// another variable, and that it does more than join and unite.
pub ghost enum Trace {
    Path(Plan),
    Hidden(Seq<char>),
    NoNode(Seq<char>),
    NoLiteral(Seq<char>),
    Copied(Seq<char>),
    Worked,
}

/// What is kept track of. A path has a mark if it is joined with itself. Hidden
/// variables always have one, and the others never.
pub type Paths = Set<(Trace, bool)>;

/// The paths of two joined plans.
pub open spec fn side_by_side(a: Paths, b: Paths) -> Paths {
    Set::new(
        |p: (Trace, bool)|
            a.contains(p) || b.contains(p) || p.1 && p.0 is Path && a.contains((p.0, false))
                && b.contains((p.0, false)),
    )
}

/// The mark of a plan that does more than join and unite.
pub open spec fn worked() -> Paths {
    set![(Trace::Worked, false)]
}

/// A plan that does no more than join and unite.
pub open spec fn is_bare(plan: Plan) -> bool {
    !plan_paths(plan).contains((Trace::Worked, false))
}

/// Variables that are hidden.
pub open spec fn all_hidden(names: Names) -> Paths {
    Set::new(|p: (Trace, bool)| p.1 && (p.0 matches Trace::Hidden(v) && names.contains(v)))
}

/// The variables whose value an expression may have, but for some.
pub open spec fn all_copied(expression: Expr, sure: Names) -> Paths {
    Set::new(
        |p: (Trace, bool)|
            !p.1 && !has_kind(expression) && (p.0 matches Trace::Copied(v) && expr_variables(
                expression,
            ).contains(v) && !sure.contains(v)),
    )
}

/// The variables whose value may become that of another variable of a plan, and
/// that have none for sure.
pub open spec fn copied_variables(plan: Plan) -> Names {
    Set::new(|v: Seq<char>| plan_paths(plan).contains((Trace::Copied(v), false)))
}

/// Variables that have a value that is never a node.
pub open spec fn no_nodes(names: Names) -> Paths {
    Set::new(|p: (Trace, bool)| !p.1 && (p.0 matches Trace::NoNode(v) && names.contains(v)))
}

/// Variables that have a value that is never a literal.
pub open spec fn no_literals(names: Names) -> Paths {
    Set::new(|p: (Trace, bool)| !p.1 && (p.0 matches Trace::NoLiteral(v) && names.contains(v)))
}

/// Variables of whose values nothing is known.
pub open spec fn all_loose(names: Names) -> Paths {
    no_nodes(names).union(no_literals(names))
}

/// The variables that a plan hides, or that have a value in a part of it that is
/// never a literal, or never a node.
pub open spec fn odd_variables(plan: Plan, literal: bool) -> Names {
    Set::new(
        |v: Seq<char>|
            plan_paths(plan).contains((Trace::Hidden(v), true)) || plan_paths(plan).contains(
                (
                    if literal {
                        Trace::NoLiteral(v)
                    } else {
                        Trace::NoNode(v)
                    },
                    false,
                ),
            ),
    )
}

/// The variables that a plan hides, or whose values in its parts have no kind in
/// common.
pub open spec fn loose_variables(plan: Plan) -> Names {
    odd_variables(plan, false).intersect(odd_variables(plan, true))
}

/// The variables of a term pattern that is no variable itself.
pub open spec fn quoted_variables(pattern: TermPatternView) -> Names {
    if pattern is Variable {
        set![]
    } else {
        term_variables(pattern)
    }
}

/// The variables of a table whose columns have no value of a kind.
pub open spec fn lacking(variables: Seq<Seq<char>>, bindings: Seq<Row>, literal: bool) -> Names {
    Set::new(
        |v: Seq<char>|
            exists|c: int|
                0 <= c < variables.len() && #[trigger] variables[c] == v && !of_kind(
                    column_type(bindings, c),
                    literal,
                ),
    )
}

/// Whether a value may be a literal, or a node.
pub open spec fn of_kind(t: VariableType, literal: bool) -> bool {
    if literal {
        t.literal
    } else {
        t.named_node
    }
}

/// The property paths that a plan follows, and what else is kept track of.
pub open spec fn plan_paths(plan: Plan) -> Paths
    decreases plan,
{
    match plan {
        Plan::Path { subject, object, graph_name, .. } => no_literals(
            quoted_variables(subject).union(quoted_variables(object)).union(
                graph_name_variables(graph_name),
            ),
        ).insert((Trace::Path(plan), false)),
        Plan::QuadPattern { subject, predicate, object, graph_name } => no_literals(
            term_variables(subject).union(node_variables(predicate)).union(
                quoted_variables(object),
            ).union(graph_name_variables(graph_name)),
        ),
        Plan::Graph { graph_name } => no_literals(node_variables(graph_name)),
        Plan::Values { variables, bindings } => no_nodes(
            lacking(variables, bindings, false),
        ).union(no_literals(lacking(variables, bindings, true))),
        Plan::Service { .. } => all_loose(Set::full()),
        Plan::Join { left, right, .. } => side_by_side(plan_paths(*left), plan_paths(*right)),
        Plan::Lateral { left, right } => plan_paths(*left).union(plan_paths(*right)),
        Plan::Minus { left, right, .. } => plan_paths(*left).union(plan_paths(*right)).union(
            all_loose(plan_variables(*right)),
        ).union(worked()),
        Plan::LeftJoin { left, right, expression, .. } => side_by_side(
            plan_paths(*left),
            plan_paths(*right),
        ).union(expr_paths(expression)).union(
            all_loose(expr_variables(expression).difference(binds(*right))),
        ).union(worked()),
        Plan::Filter { inner, expression } => plan_paths(*inner).union(
            expr_paths(expression),
        ).union(all_loose(expr_variables(expression).difference(binds(*inner)))).union(worked()),
        Plan::Extend { inner, variable, expression } => plan_paths(*inner).union(
            expr_paths(expression),
        ).union(all_loose(expr_variables(expression).difference(binds(*inner)))).union(
            if gives_literal(expression) {
                no_nodes(set![variable])
            } else {
                all_loose(set![variable])
            },
        ).union(all_copied(expression, binds(*inner))).union(worked()),
        Plan::Union { inner } => all_paths(inner).union(
            if inner.len() == 0 {
                all_loose(Set::full())
            } else {
                set![]
            },
        ),
        Plan::OrderBy { inner, .. } | Plan::Distinct { inner } | Plan::Reduced { inner } => {
            plan_paths(*inner).union(worked())
        },
        Plan::Slice { inner, .. } => plan_paths(*inner).union(
            all_loose(plan_variables(*inner)),
        ).union(worked()),
        Plan::Project { inner, variables } => plan_paths(*inner).union(
            all_hidden(hidden(*inner, variables)),
        ).union(all_loose(variables.to_set())).union(worked()),
        Plan::Group { inner, variables, .. } => plan_paths(*inner).union(
            all_hidden(hidden(*inner, variables)),
        ).union(all_loose(plan_variables(plan))).union(worked()),
    }
}

/// The property paths that some alternative plans follow.
pub open spec fn all_paths(plans: Seq<Plan>) -> Paths
    decreases plans,
{
    Set::new(
        |p: (Trace, bool)|
            exists|i: int| 0 <= i < plans.len() && plan_paths(#[trigger] plans[i]).contains(p),
    )
}

/// Whether two of some plans follow a property path.
pub open spec fn meets(plans: Seq<Plan>, path: Trace) -> bool {
    exists|i: int, j: int|
        0 <= i < j < plans.len() && plan_paths(#[trigger] plans[i]).contains((path, false))
            && plan_paths(#[trigger] plans[j]).contains((path, false))
}

/// The property paths that some joined plans follow.
pub open spec fn joined_paths(plans: Seq<Plan>) -> Paths {
    Set::new(
        |p: (Trace, bool)|
            all_paths(plans).contains(p) || p.1 && p.0 is Path && meets(plans, p.0),
    )
}

/// The property paths that plans inside an expression join with themselves.
pub open spec fn expr_paths(expression: Expr) -> Paths
    decreases expression,
{
    match expression {
        Expr::NamedNode(_) | Expr::Literal(_) | Expr::Variable(_) | Expr::Bound(_) => set![],
        Expr::Or(inner)
        | Expr::And(inner)
        | Expr::Coalesce(inner)
        | Expr::FunctionCall(_, inner) => all_expr_paths(inner),
        Expr::Equal(left, right)
        | Expr::SameTerm(left, right)
        | Expr::Greater(left, right)
        | Expr::GreaterOrEqual(left, right)
        | Expr::Less(left, right)
        | Expr::LessOrEqual(left, right)
        | Expr::Add(left, right)
        | Expr::Subtract(left, right)
        | Expr::Multiply(left, right)
        | Expr::Divide(left, right) => expr_paths(*left).union(expr_paths(*right)),
        Expr::UnaryPlus(inner) | Expr::UnaryMinus(inner) | Expr::Not(inner) => expr_paths(*inner),
        Expr::If(condition, then_case, else_case) => expr_paths(*condition).union(
            expr_paths(*then_case),
        ).union(expr_paths(*else_case)),
        Expr::Exists(inner) => plan_paths(*inner).filter(
            |p: (Trace, bool)| p.1 && (p.0 is Path || p.0 is Hidden),
        ),
    }
}

pub open spec fn all_expr_paths(expressions: Seq<Expr>) -> Paths
    decreases expressions,
{
    Set::new(
        |p: (Trace, bool)|
            exists|i: int|
                0 <= i < expressions.len() && expr_paths(#[trigger] expressions[i]).contains(p),
    )
}

pub open spec fn all_scoped(
    plans: Seq<Plan>,
    sure: Names,
    outside: Names,
    late: Names,
    threshold: nat,
) -> bool
    decreases plans,
{
    forall|i: int| 0 <= i < plans.len() ==> scoped(
        #[trigger] plans[i],
        sure,
        outside,
        late,
        threshold,
    )
}

/// The same of the plans inside an expression. What is combined by a connective is
/// no ill-typed boolean constant, and the number that does not equal itself is not
/// compared with itself.
pub open spec fn scoped_expr(expression: Expr, sure: Names, outside: Names, threshold: nat) -> bool
    decreases expression,
{
    match expression {
        Expr::NamedNode(_) | Expr::Literal(_) | Expr::Variable(_) | Expr::Bound(_) => true,
        Expr::Or(inner) | Expr::And(inner) => {
            &&& all_scoped_exprs(inner, sure, outside, threshold)
            &&& all_proper_exprs(inner)
        },
        Expr::Coalesce(inner) | Expr::FunctionCall(_, inner) => all_scoped_exprs(
            inner,
            sure,
            outside,
            threshold,
        ),
        Expr::Equal(left, right) => {
            &&& scoped_expr(*left, sure, outside, threshold)
            &&& scoped_expr(*right, sure, outside, threshold)
            &&& never_nan(*left) || never_nan(*right)
        },
        Expr::SameTerm(left, right)
        | Expr::Greater(left, right)
        | Expr::GreaterOrEqual(left, right)
        | Expr::Less(left, right)
        | Expr::LessOrEqual(left, right)
        | Expr::Add(left, right)
        | Expr::Subtract(left, right)
        | Expr::Multiply(left, right)
        | Expr::Divide(left, right) => scoped_expr(*left, sure, outside, threshold) && scoped_expr(
            *right,
            sure,
            outside,
            threshold,
        ),
        Expr::UnaryPlus(inner) | Expr::UnaryMinus(inner) => scoped_expr(
            *inner,
            sure,
            outside,
            threshold,
        ),
        Expr::Not(inner) => {
            &&& scoped_expr(*inner, sure, outside, threshold)
            &&& proper_expr(*inner)
        },
        Expr::If(condition, then_case, else_case) => scoped_expr(
            *condition,
            sure,
            outside,
            threshold,
        )
            && scoped_expr(*then_case, sure, outside, threshold) && scoped_expr(
                *else_case,
                sure,
                outside,
                threshold,
            ),
        Expr::Exists(inner) => {
            &&& scoped(*inner, sure, outside, set![], threshold)
            &&& plain(*inner) || !has_subclass_path(*inner) || plan_variables(*inner).len()
                < threshold
        },
    }
}

pub open spec fn all_scoped_exprs(
    expressions: Seq<Expr>,
    sure: Names,
    outside: Names,
    threshold: nat,
) -> bool
    decreases expressions,
{
    forall|i: int| 0 <= i < expressions.len() ==> scoped_expr(
        #[trigger] expressions[i],
        sure,
        outside,
        threshold,
    )
}

/// A plan of the operators that can be evaluated in a loop.
pub open spec fn loops(plan: Plan) -> bool
    decreases plan,
{
    match plan {
        Plan::QuadPattern { .. }
        | Plan::Path { .. }
        | Plan::Graph { .. }
        | Plan::Values { .. }
        | Plan::Service { .. } => true,
        Plan::Join { left, right, .. } | Plan::Lateral { left, right } => loops(*left) && loops(
            *right,
        ),
        Plan::LeftJoin { left, .. } => loops(*left),
        Plan::Filter { inner, .. } | Plan::Extend { inner, .. } => loops(*inner),
        Plan::Union { inner } => all_loop(inner),
        _ => false,
    }
}

pub open spec fn all_loop(plans: Seq<Plan>) -> bool
    decreases plans,
{
    forall|i: int| 0 <= i < plans.len() ==> loops(#[trigger] plans[i])
}

pub proof fn lemma_covers_more(
    used: Names,
    late: Names,
    sure: Names,
    used2: Names,
    late2: Names,
    sure2: Names,
)
    requires
        covers(used, late, sure),
        used2.subset_of(used),
        late2.subset_of(late),
        sure.subset_of(sure2),
    ensures
        covers(used2, late2, sure2),
{
    assert forall|v: Seq<char>| used2.intersect(late2).contains(v) implies sure2.contains(v) by {
        assert(used.intersect(late).contains(v));
    }
}

/// What is used of the late variables may be less, and more may be sure to have a
/// value.
pub proof fn lemma_covers_used(used: Names, late: Names, sure: Names, late2: Names, sure2: Names)
    requires
        covers(used, late, sure),
        used.intersect(late2).subset_of(late),
        sure.subset_of(sure2),
    ensures
        covers(used, late2, sure2),
{
    assert forall|v: Seq<char>| used.intersect(late2).contains(v) implies sure2.contains(v) by {
        assert(used.intersect(late).contains(v));
    }
}

/// Fewer late variables that the plan uses, and more that are sure to have a value.
pub proof fn lemma_steady_more(plan: Plan, late: Names, sure: Names, late2: Names, sure2: Names)
    requires
        steady(plan, late, sure),
        plan_variables(plan).intersect(late2).subset_of(late),
        sure.subset_of(sure2),
    ensures
        steady(plan, late2, sure2),
    decreases plan,
{
    let used = plan_variables(plan);
    assert forall|v: Seq<char>| used.contains(v) && #[trigger] late2.contains(v) implies
        late.contains(v) by {
        assert(used.intersect(late2).contains(v));
    }
    match plan {
        Plan::Join { left, right, .. } => {
            lemma_steady_more(*left, late, sure, late2, sure2);
            lemma_steady_more(*right, late, sure, late2, sure2);
        },
        Plan::Lateral { left, right } => {
            lemma_steady_more(*left, late, sure, late2, sure2);
            let b = binds(*left);
            lemma_steady_more(*right, late, sure.union(b), late2, sure2.union(b));
        },
        Plan::LeftJoin { left, right, expression, .. } => {
            lemma_steady_more(*left, late, sure, late2, sure2);
            lemma_steady_more(*right, late, sure, late2, sure2);
            let (b, c) = (binds(*left), binds(*right));
            lemma_covers_used(
                plan_variables(*right),
                late,
                sure.union(b),
                late2,
                sure2.union(b),
            );
            lemma_covers_used(
                expr_variables(expression),
                late,
                sure.union(b).union(c),
                late2,
                sure2.union(b).union(c),
            );
        },
        Plan::Filter { inner, expression } | Plan::Extend { inner, expression, .. } => {
            lemma_steady_more(*inner, late, sure, late2, sure2);
            let (w, b) = (expr_variables(expression), binds(*inner));
            lemma_covers_used(w, late, sure.union(b), late2, sure2.union(b));
        },
        Plan::Union { inner } => {
            assert(all_steady(inner, late, sure));
            assert forall|i: int| 0 <= i < inner.len() implies steady(
                #[trigger] inner[i],
                late2,
                sure2,
            ) by {
                lemma_branch_variables(inner, i);
                lemma_steady_more(inner[i], late, sure, late2, sure2);
            }
            assert(all_steady(inner, late2, sure2));
        },
        Plan::Minus { left, .. } => {
            lemma_steady_more(*left, late, sure, late2, sure2);
        },
        Plan::OrderBy { inner, .. } => {
            lemma_steady_more(*inner, late, sure, late2, sure2);
        },
        Plan::Distinct { inner } | Plan::Reduced { inner } => {
            lemma_steady_more(*inner, late, sure, late2, sure2);
            let b = binds(*inner);
            lemma_covers_used(used, late, sure.union(b), late2, sure2.union(b));
        },
        Plan::Project { inner, variables } => {
            let h = hidden(*inner, variables);
            lemma_steady_more(
                *inner,
                late.difference(h),
                sure.difference(h),
                late2.difference(h),
                sure2.difference(h),
            );
        },
        Plan::Group { inner, variables, aggregates } => {
            if !used.disjoint(late) {
                let h = hidden(*inner, variables);
                let b = binds(*inner);
                lemma_covers_used(
                    variables.to_set(),
                    late,
                    sure.union(b),
                    late2,
                    sure2.union(b),
                );
                lemma_steady_more(
                    *inner,
                    late.difference(h),
                    sure.difference(h),
                    late2.difference(h),
                    sure2.difference(h),
                );
            }
        },
        _ => {},
    }
}

proof fn lemma_branch_variables(plans: Seq<Plan>, i: int)
    requires
        0 <= i < plans.len(),
    ensures
        plan_variables(plans[i]).subset_of(plans_variables(plans)),
{
    assert forall|v: Seq<char>| #[trigger] plan_variables(plans[i]).contains(v) implies
        plans_variables(plans).contains(v) by {
    }
}

/// A plan that does not use what gets known late is steady.
pub proof fn lemma_apart_steady(plan: Plan, late: Names, sure: Names)
    requires
        plan_variables(plan).disjoint(late),
    ensures
        steady(plan, late, sure),
    decreases plan,
{
    match plan {
        Plan::Join { left, right, .. } => {
            lemma_apart_steady(*left, late, sure);
            lemma_apart_steady(*right, late, sure);
        },
        Plan::Lateral { left, right } => {
            lemma_apart_steady(*left, late, sure);
            lemma_apart_steady(*right, late, sure.union(binds(*left)));
        },
        Plan::LeftJoin { left, right, .. } => {
            lemma_apart_steady(*left, late, sure);
            lemma_apart_steady(*right, late, sure);
        },
        Plan::Minus { left, .. } => {
            lemma_apart_steady(*left, late, sure);
        },
        Plan::Filter { inner, .. }
        | Plan::Extend { inner, .. }
        | Plan::OrderBy { inner, .. }
        | Plan::Distinct { inner }
        | Plan::Reduced { inner } => {
            lemma_apart_steady(*inner, late, sure);
        },
        Plan::Union { inner } => {
            assert forall|i: int| 0 <= i < inner.len() implies steady(
                #[trigger] inner[i],
                late,
                sure,
            ) by {
                lemma_branch_variables(inner, i);
                lemma_apart_steady(inner[i], late, sure);
            }
            assert(all_steady(inner, late, sure));
        },
        Plan::Project { inner, variables } => {
            let h = hidden(*inner, variables);
            lemma_apart_steady(*inner, late.difference(h), sure.difference(h));
        },
        _ => {},
    }
}

pub proof fn lemma_exists_covered_more(
    expression: Expr,
    late: Names,
    sure: Names,
    late2: Names,
    sure2: Names,
)
    requires
        exists_covered(expression, late, sure),
        late2.subset_of(late),
        sure.subset_of(sure2),
    ensures
        exists_covered(expression, late2, sure2),
    decreases expression,
{
    match expression {
        Expr::And(inner) => {
            assert(all_exists_covered(inner, late, sure));
            assert forall|i: int| 0 <= i < inner.len() implies exists_covered(
                #[trigger] inner[i],
                late2,
                sure2,
            ) by {
                lemma_exists_covered_more(inner[i], late, sure, late2, sure2);
            }
            assert(all_exists_covered(inner, late2, sure2));
        },
        _ => {
            if contains_exists(expression) {
                let w = expr_variables(expression);
                lemma_covers_more(w, late, sure, w, late2, sure2);
            }
        },
    }
}

/// The variables that a plan hides.
pub open spec fn hidden_variables(plan: Plan) -> Names {
    Set::new(|v: Seq<char>| plan_paths(plan).contains((Trace::Hidden(v), true)))
}

/// Variables that may get a value late may have one from the start, in a plan
/// that can be evaluated in a loop.
#[verifier::spinoff_prover]
#[verifier::rlimit(40)]
pub proof fn lemma_scoped_more(
    plan: Plan,
    sure: Names,
    outside: Names,
    late: Names,
    sure2: Names,
    outside2: Names,
    late2: Names,
    threshold: nat,
)
    requires
        scoped(plan, sure, outside, late, threshold),
        sure.subset_of(sure2),
        late2.subset_of(late),
        forall|v: Seq<char>| #[trigger]
            outside2.contains(v) ==> outside.contains(v) || late.contains(v),
        outside2.subset_of(outside) || loops(plan),
    ensures
        scoped(plan, sure2, outside2, late2, threshold),
    decreases plan,
{
    match plan {
        Plan::Join { left, right, .. } => {
            let (l, r) = (plan_variables(*left), plan_variables(*right));
            lemma_scoped_more(
                *left,
                sure,
                outside,
                late.union(r),
                sure2,
                outside2,
                late2.union(r),
                threshold,
            );
            lemma_scoped_more(
                *right,
                sure,
                outside,
                late.union(l),
                sure2,
                outside2,
                late2.union(l),
                threshold,
            );
        },
        Plan::Lateral { left, right } => {
            let (l, b) = (plan_variables(*left), binds(*left));
            lemma_scoped_more(*left, sure, outside, late, sure2, outside2, late2, threshold);
            lemma_scoped_more(
                *right,
                sure.union(b),
                outside.union(l),
                late,
                sure2.union(b),
                outside2.union(l),
                late2,
                threshold,
            );
        },
        Plan::LeftJoin { left, right, expression, .. } => {
            let (l, r) = (plan_variables(*left), plan_variables(*right));
            let b = binds(*left).union(binds(*right));
            lemma_scoped_more(*left, sure, outside, late, sure2, outside2, late2, threshold);
            lemma_scoped_more(
                *right,
                sure,
                outside.union(late),
                late.union(l),
                sure2,
                outside2.union(late2),
                late2.union(l),
                threshold,
            );
            if binds(*right) == Set::<Seq<char>>::empty() {
                lemma_scoped_more(
                    *left,
                    sure,
                    outside,
                    late.union(r),
                    sure2,
                    outside2,
                    late2.union(r),
                    threshold,
                );
            }
            if late == Set::<Seq<char>>::empty() {
                assert(late2 =~= Set::<Seq<char>>::empty());
            } else {
                let few = exposed(*left, *right, late.difference(sure));
                let few2 = exposed(*left, *right, late2.difference(sure2));
                lemma_steady_more(*right, few, sure, few2, sure2);
            }
            let (a, a2) = (
                sure.union(binds(*left)).union(binds(*right)),
                sure2.union(binds(*left)).union(binds(*right)),
            );
            lemma_exists_covered_more(expression, late, a, late2, a2);
            lemma_scoped_expr_more(
                expression,
                a,
                outside.union(late).union(l).union(r),
                a2,
                outside2.union(late2).union(l).union(r),
                threshold,
            );
        },
        Plan::Filter { inner, expression } | Plan::Extend { inner, expression, .. } => {
            let (u, b) = (plan_variables(*inner), binds(*inner));
            lemma_scoped_more(*inner, sure, outside, late, sure2, outside2, late2, threshold);
            if late == Set::<Seq<char>>::empty() {
                assert(late2 =~= Set::<Seq<char>>::empty());
            }
            lemma_exists_covered_more(expression, late, sure.union(b), late2, sure2.union(b));
            lemma_scoped_expr_more(
                expression,
                sure.union(b),
                outside.union(late).union(u),
                sure2.union(b),
                outside2.union(late2).union(u),
                threshold,
            );
        },
        Plan::Union { inner } => {
            assert(all_scoped(inner, sure, outside, late, threshold));
            assert forall|i: int| 0 <= i < inner.len() implies scoped(
                #[trigger] inner[i],
                sure2,
                outside2,
                late2,
                threshold,
            ) by {
                if !outside2.subset_of(outside) {
                    assert(all_loop(inner));
                }
                lemma_scoped_more(inner[i], sure, outside, late, sure2, outside2, late2, threshold);
            }
            assert(all_scoped(inner, sure2, outside2, late2, threshold));
        },
        Plan::Minus { left, right, .. } => {
            let none = Set::<Seq<char>>::empty();
            lemma_scoped_more(*left, sure, outside, late, sure2, outside2, late2, threshold);
            lemma_scoped_more(*right, sure, outside, none, sure2, outside2, none, threshold);
        },
        Plan::OrderBy { inner, .. } | Plan::Slice { inner, .. } => {
            let none = Set::<Seq<char>>::empty();
            if does_nothing(plan) {
                lemma_scoped_more(*inner, sure, outside, late, sure2, outside2, late2, threshold);
            } else {
                lemma_scoped_more(*inner, sure, outside, none, sure2, outside2, none, threshold);
            }
        },
        Plan::Distinct { inner }
        | Plan::Reduced { inner }
        | Plan::Project { inner, .. }
        | Plan::Group { inner, .. } => {
            let none = Set::<Seq<char>>::empty();
            lemma_scoped_more(*inner, sure, outside, none, sure2, outside2, none, threshold);
        },
        _ => {},
    }
}

/// The right side of a left join, with what is known outside the left join.
pub proof fn lemma_right_scoped(
    left: Plan,
    right: Plan,
    expression: Expr,
    keys: Seq<Seq<char>>,
    sure: Names,
    outside: Names,
    late: Names,
    threshold: nat,
)
    requires
        scoped(
            (Plan::LeftJoin { left: Box::new(left), right: Box::new(right), expression, keys }),
            sure,
            outside,
            late,
            threshold,
        ),
    ensures
        scoped(right, sure, outside, late.union(plan_variables(left)), threshold),
{
    let wide = late.union(plan_variables(left));
    lemma_scoped_more(right, sure, outside.union(late), wide, sure, outside, wide, threshold);
}

pub proof fn lemma_scoped_expr_more(
    expression: Expr,
    sure: Names,
    outside: Names,
    sure2: Names,
    outside2: Names,
    threshold: nat,
)
    requires
        scoped_expr(expression, sure, outside, threshold),
        sure.subset_of(sure2),
        outside2.subset_of(outside),
    ensures
        scoped_expr(expression, sure2, outside2, threshold),
    decreases expression,
{
    match expression {
        Expr::Or(inner)
        | Expr::And(inner)
        | Expr::Coalesce(inner)
        | Expr::FunctionCall(_, inner) => {
            assert(all_scoped_exprs(inner, sure, outside, threshold));
            assert forall|i: int| 0 <= i < inner.len() implies scoped_expr(
                #[trigger] inner[i],
                sure2,
                outside2,
                threshold,
            ) by {
                lemma_scoped_expr_more(inner[i], sure, outside, sure2, outside2, threshold);
            }
            assert(all_scoped_exprs(inner, sure2, outside2, threshold));
        },
        Expr::Equal(left, right)
        | Expr::SameTerm(left, right)
        | Expr::Greater(left, right)
        | Expr::GreaterOrEqual(left, right)
        | Expr::Less(left, right)
        | Expr::LessOrEqual(left, right)
        | Expr::Add(left, right)
        | Expr::Subtract(left, right)
        | Expr::Multiply(left, right)
        | Expr::Divide(left, right) => {
            lemma_scoped_expr_more(*left, sure, outside, sure2, outside2, threshold);
            lemma_scoped_expr_more(*right, sure, outside, sure2, outside2, threshold);
        },
        Expr::UnaryPlus(inner) | Expr::UnaryMinus(inner) | Expr::Not(inner) => {
            lemma_scoped_expr_more(*inner, sure, outside, sure2, outside2, threshold);
        },
        Expr::If(condition, then_case, else_case) => {
            lemma_scoped_expr_more(*condition, sure, outside, sure2, outside2, threshold);
            lemma_scoped_expr_more(*then_case, sure, outside, sure2, outside2, threshold);
            lemma_scoped_expr_more(*else_case, sure, outside, sure2, outside2, threshold);
        },
        Expr::Exists(inner) => {
            let none = Set::<Seq<char>>::empty();
            lemma_scoped_more(*inner, sure, outside, none, sure2, outside2, none, threshold);
        },
        _ => {},
    }
}

/// Nothing in a plan with scopes in order hides a variable that has a value from
/// outside.
#[verifier::spinoff_prover]
pub proof fn lemma_scoped_hidden(
    plan: Plan,
    sure: Names,
    outside: Names,
    late: Names,
    threshold: nat,
    v: Seq<char>,
)
    requires
        scoped(plan, sure, outside, late, threshold),
        hidden_variables(plan).contains(v),
    ensures
        !outside.contains(v),
    decreases plan,
{
    let none = Set::<Seq<char>>::empty();
    let h = (Trace::Hidden(v), true);
    match plan {
        Plan::Join { left, right, .. } => {
            let (l, r) = (plan_variables(*left), plan_variables(*right));
            if hidden_variables(*left).contains(v) {
                lemma_scoped_hidden(*left, sure, outside, late.union(r), threshold, v);
            } else {
                assert(plan_paths(*right).contains(h));
                lemma_scoped_hidden(*right, sure, outside, late.union(l), threshold, v);
            }
        },
        Plan::Lateral { left, right } => {
            let l = plan_variables(*left);
            if hidden_variables(*left).contains(v) {
                lemma_scoped_hidden(*left, sure, outside, late, threshold, v);
            } else {
                assert(plan_paths(*right).contains(h));
                let around = sure.union(binds(*left));
                lemma_scoped_hidden(*right, around, outside.union(l), late, threshold, v);
            }
        },
        Plan::LeftJoin { left, right, expression, .. } => {
            let (l, r) = (plan_variables(*left), plan_variables(*right));
            if hidden_variables(*left).contains(v) {
                lemma_scoped_hidden(*left, sure, outside, late, threshold, v);
            } else if hidden_variables(*right).contains(v) {
                let (all, wide) = (outside.union(late), late.union(l));
                lemma_scoped_hidden(*right, sure, all, wide, threshold, v);
            } else {
                assert(expr_paths(expression).contains(h));
                lemma_scoped_expr_hidden(
                    expression,
                    sure.union(binds(*left)).union(binds(*right)),
                    outside.union(late).union(l).union(r),
                    threshold,
                    v,
                );
            }
        },
        Plan::Filter { inner, expression } | Plan::Extend { inner, expression, .. } => {
            if hidden_variables(*inner).contains(v) {
                lemma_scoped_hidden(*inner, sure, outside, late, threshold, v);
            } else {
                assert(expr_paths(expression).contains(h));
                lemma_scoped_expr_hidden(
                    expression,
                    sure.union(binds(*inner)),
                    outside.union(late).union(plan_variables(*inner)),
                    threshold,
                    v,
                );
            }
        },
        Plan::Union { inner } => {
            assert(all_paths(inner).contains(h));
            let i = choose|i: int| 0 <= i < inner.len() && plan_paths(#[trigger] inner[i]).contains(h);
            assert(all_scoped(inner, sure, outside, late, threshold));
            lemma_scoped_hidden(inner[i], sure, outside, late, threshold, v);
        },
        Plan::Minus { left, right, .. } => {
            if hidden_variables(*left).contains(v) {
                lemma_scoped_hidden(*left, sure, outside, late, threshold, v);
            } else {
                assert(plan_paths(*right).contains(h));
                lemma_scoped_hidden(*right, sure, outside, none, threshold, v);
            }
        },
        Plan::OrderBy { inner, .. } | Plan::Slice { inner, .. } => {
            assert(plan_paths(*inner).contains(h));
            if does_nothing(plan) {
                lemma_scoped_hidden(*inner, sure, outside, late, threshold, v);
            } else {
                lemma_scoped_hidden(*inner, sure, outside, none, threshold, v);
            }
        },
        Plan::Distinct { inner } | Plan::Reduced { inner } => {
            assert(plan_paths(*inner).contains(h));
            lemma_scoped_hidden(*inner, sure, outside, none, threshold, v);
        },
        Plan::Project { inner, variables } | Plan::Group { inner, variables, .. } => {
            if !hidden(*inner, variables).contains(v) {
                assert(plan_paths(*inner).contains(h));
                lemma_scoped_hidden(*inner, sure, outside, none, threshold, v);
            }
        },
        _ => {},
    }
}

proof fn lemma_scoped_expr_hidden(
    expression: Expr,
    sure: Names,
    outside: Names,
    threshold: nat,
    v: Seq<char>,
)
    requires
        scoped_expr(expression, sure, outside, threshold),
        expr_paths(expression).contains((Trace::Hidden(v), true)),
    ensures
        !outside.contains(v),
    decreases expression,
{
    let h = (Trace::Hidden(v), true);
    match expression {
        Expr::Or(inner)
        | Expr::And(inner)
        | Expr::Coalesce(inner)
        | Expr::FunctionCall(_, inner) => {
            assert(all_scoped_exprs(inner, sure, outside, threshold));
            assert(all_expr_paths(inner).contains(h));
            let i = choose|i: int| 0 <= i < inner.len() && expr_paths(#[trigger] inner[i]).contains(h);
            lemma_scoped_expr_hidden(inner[i], sure, outside, threshold, v);
        },
        Expr::Equal(left, right)
        | Expr::SameTerm(left, right)
        | Expr::Greater(left, right)
        | Expr::GreaterOrEqual(left, right)
        | Expr::Less(left, right)
        | Expr::LessOrEqual(left, right)
        | Expr::Add(left, right)
        | Expr::Subtract(left, right)
        | Expr::Multiply(left, right)
        | Expr::Divide(left, right) => {
            if expr_paths(*left).contains(h) {
                lemma_scoped_expr_hidden(*left, sure, outside, threshold, v);
            } else {
                lemma_scoped_expr_hidden(*right, sure, outside, threshold, v);
            }
        },
        Expr::UnaryPlus(inner) | Expr::UnaryMinus(inner) | Expr::Not(inner) => {
            lemma_scoped_expr_hidden(*inner, sure, outside, threshold, v);
        },
        Expr::If(condition, then_case, else_case) => {
            if expr_paths(*condition).contains(h) {
                lemma_scoped_expr_hidden(*condition, sure, outside, threshold, v);
            } else if expr_paths(*then_case).contains(h) {
                lemma_scoped_expr_hidden(*then_case, sure, outside, threshold, v);
            } else {
                lemma_scoped_expr_hidden(*else_case, sure, outside, threshold, v);
            }
        },
        Expr::Exists(inner) => {
            assert(plan_paths(*inner).contains(h));
            lemma_scoped_hidden(*inner, sure, outside, set![], threshold, v);
        },
        _ => {},
    }
}

/// A plan with scopes in order hides no variable that has a value from outside.
#[verifier::spinoff_prover]
pub proof fn lemma_scoped_hygienic(
    plan: Plan,
    sure: Names,
    outside: Names,
    late: Names,
    threshold: nat,
)
    requires
        scoped(plan, sure, outside, late, threshold),
    ensures
        hygienic(plan, outside),
    decreases plan,
{
    let none = Set::<Seq<char>>::empty();
    match plan {
        Plan::Join { left, right, .. } => {
            lemma_scoped_hygienic(
                *left,
                sure,
                outside,
                late.union(plan_variables(*right)),
                threshold,
            );
            lemma_scoped_hygienic(
                *right,
                sure,
                outside,
                late.union(plan_variables(*left)),
                threshold,
            );
        },
        Plan::Lateral { left, right } => {
            lemma_scoped_hygienic(*left, sure, outside, late, threshold);
            lemma_scoped_hygienic(
                *right,
                sure.union(binds(*left)),
                outside.union(plan_variables(*left)),
                late,
                threshold,
            );
        },
        Plan::LeftJoin { left, right, expression, .. } => {
            let (l, r) = (plan_variables(*left), plan_variables(*right));
            lemma_scoped_hygienic(*left, sure, outside, late, threshold);
            lemma_scoped_hygienic(*right, sure, outside.union(late), late.union(l), threshold);
            lemma_hygienic_less(*right, outside.union(late), outside);
            let all = outside.union(late).union(l).union(r);
            lemma_scoped_expr_hygienic(
                expression,
                sure.union(binds(*left)).union(binds(*right)),
                all,
                threshold,
            );
            lemma_hygienic_expr_less(expression, all, outside.union(l).union(r));
        },
        Plan::Filter { inner, expression } | Plan::Extend { inner, expression, .. } => {
            let u = plan_variables(*inner);
            lemma_scoped_hygienic(*inner, sure, outside, late, threshold);
            let all = outside.union(late).union(u);
            lemma_scoped_expr_hygienic(expression, sure.union(binds(*inner)), all, threshold);
            lemma_hygienic_expr_less(expression, all, outside.union(u));
        },
        Plan::Union { inner } => {
            assert(all_scoped(inner, sure, outside, late, threshold));
            assert forall|i: int| 0 <= i < inner.len() implies hygienic(
                #[trigger] inner[i],
                outside,
            ) by {
                lemma_scoped_hygienic(inner[i], sure, outside, late, threshold);
            }
            assert(all_hygienic(inner, outside));
        },
        Plan::Minus { left, right, .. } => {
            lemma_scoped_hygienic(*left, sure, outside, late, threshold);
            lemma_scoped_hygienic(*right, sure, outside, none, threshold);
        },
        Plan::OrderBy { inner, .. } | Plan::Slice { inner, .. } => {
            if does_nothing(plan) {
                lemma_scoped_hygienic(*inner, sure, outside, late, threshold);
            } else {
                lemma_scoped_hygienic(*inner, sure, outside, none, threshold);
            }
        },
        Plan::Distinct { inner }
        | Plan::Reduced { inner }
        | Plan::Project { inner, .. }
        | Plan::Group { inner, .. } => {
            lemma_scoped_hygienic(*inner, sure, outside, none, threshold);
        },
        _ => {},
    }
}

pub proof fn lemma_scoped_expr_hygienic(
    expression: Expr,
    sure: Names,
    outside: Names,
    threshold: nat,
)
    requires
        scoped_expr(expression, sure, outside, threshold),
    ensures
        hygienic_expr(expression, outside),
    decreases expression,
{
    match expression {
        Expr::Or(inner)
        | Expr::And(inner)
        | Expr::Coalesce(inner)
        | Expr::FunctionCall(_, inner) => {
            assert(all_scoped_exprs(inner, sure, outside, threshold));
            assert forall|i: int| 0 <= i < inner.len() implies hygienic_expr(
                #[trigger] inner[i],
                outside,
            ) by {
                lemma_scoped_expr_hygienic(inner[i], sure, outside, threshold);
            }
            assert(all_hygienic_exprs(inner, outside));
        },
        Expr::Equal(left, right)
        | Expr::SameTerm(left, right)
        | Expr::Greater(left, right)
        | Expr::GreaterOrEqual(left, right)
        | Expr::Less(left, right)
        | Expr::LessOrEqual(left, right)
        | Expr::Add(left, right)
        | Expr::Subtract(left, right)
        | Expr::Multiply(left, right)
        | Expr::Divide(left, right) => {
            lemma_scoped_expr_hygienic(*left, sure, outside, threshold);
            lemma_scoped_expr_hygienic(*right, sure, outside, threshold);
        },
        Expr::UnaryPlus(inner) | Expr::UnaryMinus(inner) | Expr::Not(inner) => {
            lemma_scoped_expr_hygienic(*inner, sure, outside, threshold);
        },
        Expr::If(condition, then_case, else_case) => {
            lemma_scoped_expr_hygienic(*condition, sure, outside, threshold);
            lemma_scoped_expr_hygienic(*then_case, sure, outside, threshold);
            lemma_scoped_expr_hygienic(*else_case, sure, outside, threshold);
        },
        Expr::Exists(inner) => {
            lemma_scoped_hygienic(*inner, sure, outside, set![], threshold);
        },
        _ => {},
    }
}

/// A plan that does no more than join and unite hides nothing, and is steady.
pub proof fn lemma_bare(plan: Plan)
    requires
        is_bare(plan),
    ensures
        hides_nothing(plan),
        copied_variables(plan) == Set::<Seq<char>>::empty(),
        forall|late: Names, sure: Names| #[trigger] steady(plan, late, sure),
    decreases plan,
{
    let none = Set::<Seq<char>>::empty();
    assert(worked().contains((Trace::Worked, false)));
    match plan {
        Plan::Join { left, right, .. } | Plan::Lateral { left, right } => {
            assert(is_bare(*left) && is_bare(*right));
            lemma_bare(*left);
            lemma_bare(*right);
            assert forall|late: Names, sure: Names| #[trigger] steady(plan, late, sure) by {
                assert(steady(*left, late, sure));
                assert(steady(*right, late, sure));
                assert(steady(*right, late, sure.union(binds(*left))));
            }
            assert forall|v: Seq<char>| !#[trigger] hidden_variables(plan).contains(v) by {
                assert(!hidden_variables(*left).contains(v));
                assert(!hidden_variables(*right).contains(v));
            }
            assert forall|v: Seq<char>| !#[trigger] copied_variables(plan).contains(v) by {
                assert(!copied_variables(*left).contains(v));
                assert(!copied_variables(*right).contains(v));
            }
            assert(copied_variables(plan) =~= none);
        },
        Plan::Union { inner } => {
            assert forall|i: int| 0 <= i < inner.len() implies is_bare(#[trigger] inner[i]) by {
                if !is_bare(inner[i]) {
                    assert(all_paths(inner).contains((Trace::Worked, false)));
                }
            }
            assert forall|v: Seq<char>| !#[trigger] hidden_variables(plan).contains(v) by {
                if hidden_variables(plan).contains(v) {
                    assert(all_paths(inner).contains((Trace::Hidden(v), true)));
                    let i = choose|i: int|
                        0 <= i < inner.len() && plan_paths(#[trigger] inner[i]).contains(
                            (Trace::Hidden(v), true),
                        );
                    lemma_bare(inner[i]);
                    assert(!hidden_variables(inner[i]).contains(v));
                }
            }
            assert forall|v: Seq<char>| !#[trigger] copied_variables(plan).contains(v) by {
                if copied_variables(plan).contains(v) {
                    assert(all_paths(inner).contains((Trace::Copied(v), false)));
                    let i = choose|i: int|
                        0 <= i < inner.len() && plan_paths(#[trigger] inner[i]).contains(
                            (Trace::Copied(v), false),
                        );
                    lemma_bare(inner[i]);
                    assert(!copied_variables(inner[i]).contains(v));
                }
            }
            assert(copied_variables(plan) =~= none);
            assert forall|late: Names, sure: Names| #[trigger] steady(plan, late, sure) by {
                assert forall|i: int| 0 <= i < inner.len() implies steady(
                    #[trigger] inner[i],
                    late,
                    sure,
                ) by {
                    lemma_bare(inner[i]);
                }
                assert(all_steady(inner, late, sure));
            }
        },
        Plan::QuadPattern { .. }
        | Plan::Path { .. }
        | Plan::Graph { .. }
        | Plan::Values { .. }
        | Plan::Service { .. } => {
            assert(copied_variables(plan) =~= none);
        },
        _ => {
            assert(plan_paths(plan).contains((Trace::Worked, false)));
        },
    }
}

/// A plain plan of operators that can be evaluated in a loop hides nothing.
pub proof fn lemma_plain_loops(plan: Plan)
    requires
        plain(plan),
        loops(plan),
    ensures
        hides_nothing(plan),
    decreases plan,
{
    assert forall|v: Seq<char>| !#[trigger] hidden_variables(plan).contains(v) by {
        if plan_paths(plan).contains((Trace::Hidden(v), true)) {
            match plan {
                Plan::Join { left, right, .. } | Plan::Lateral { left, right } => {
                    lemma_plain_loops(*left);
                    lemma_plain_loops(*right);
                    assert(!hidden_variables(*left).contains(v));
                    assert(!hidden_variables(*right).contains(v));
                },
                Plan::Filter { inner, expression } | Plan::Extend { inner, expression, .. } => {
                    lemma_plain_loops(*inner);
                    lemma_plain_expr_paths(expression);
                    assert(!hidden_variables(*inner).contains(v));
                },
                Plan::LeftJoin { left, right, expression, .. } => {
                    lemma_plain_loops(*left);
                    lemma_bare(*right);
                    lemma_plain_expr_paths(expression);
                    assert(!hidden_variables(*left).contains(v));
                    assert(!hidden_variables(*right).contains(v));
                },
                Plan::Union { inner } => {
                    assert(all_paths(inner).contains((Trace::Hidden(v), true)));
                    let i = choose|i: int|
                        0 <= i < inner.len() && plan_paths(#[trigger] inner[i]).contains(
                            (Trace::Hidden(v), true),
                        );
                    assert(all_plain(inner) && all_loop(inner));
                    lemma_plain_loops(inner[i]);
                    assert(!hidden_variables(inner[i]).contains(v));
                },
                _ => {},
            }
        }
    }
}

/// An expression without `EXISTS` follows no paths.
pub proof fn lemma_plain_expr_paths(expression: Expr)
    requires
        plain_expr(expression),
    ensures
        expr_paths(expression) == Set::<(Trace, bool)>::empty(),
    decreases expression,
{
    let none = Set::<(Trace, bool)>::empty();
    match expression {
        Expr::Or(inner)
        | Expr::And(inner)
        | Expr::Coalesce(inner)
        | Expr::FunctionCall(_, inner) => {
            assert(all_plain_exprs(inner));
            assert forall|p: (Trace, bool)| !#[trigger] all_expr_paths(inner).contains(p) by {
                if all_expr_paths(inner).contains(p) {
                    let i = choose|i: int|
                        0 <= i < inner.len() && expr_paths(#[trigger] inner[i]).contains(p);
                    lemma_plain_expr_paths(inner[i]);
                }
            }
            assert(all_expr_paths(inner) =~= none);
        },
        Expr::Equal(left, right)
        | Expr::SameTerm(left, right)
        | Expr::Greater(left, right)
        | Expr::GreaterOrEqual(left, right)
        | Expr::Less(left, right)
        | Expr::LessOrEqual(left, right)
        | Expr::Add(left, right)
        | Expr::Subtract(left, right)
        | Expr::Multiply(left, right)
        | Expr::Divide(left, right) => {
            lemma_plain_expr_paths(*left);
            lemma_plain_expr_paths(*right);
            assert(expr_paths(expression) =~= none);
        },
        Expr::UnaryPlus(inner) | Expr::UnaryMinus(inner) | Expr::Not(inner) => {
            lemma_plain_expr_paths(*inner);
        },
        Expr::If(condition, then_case, else_case) => {
            lemma_plain_expr_paths(*condition);
            lemma_plain_expr_paths(*then_case);
            lemma_plain_expr_paths(*else_case);
            assert(expr_paths(expression) =~= none);
        },
        _ => {},
    }
}

/// A plain plan has its scopes in order wherever the variables that it hides have
/// no value.
pub proof fn lemma_plain_scoped(
    plan: Plan,
    sure: Names,
    outside: Names,
    late: Names,
    threshold: nat,
)
    requires
        plain(plan),
        hidden_variables(plan).disjoint(outside),
    ensures
        scoped(plan, sure, outside, late, threshold),
    decreases plan,
{
    let none = Set::<Seq<char>>::empty();
    let h = hidden_variables(plan);
    match plan {
        Plan::Join { left, right, .. } => {
            assert(hidden_variables(*left).subset_of(h) && hidden_variables(*right).subset_of(h));
            lemma_plain_scoped(*left, sure, outside, late.union(plan_variables(*right)), threshold);
            lemma_plain_scoped(*right, sure, outside, late.union(plan_variables(*left)), threshold);
        },
        Plan::Lateral { left, right } => {
            assert(hidden_variables(*left).subset_of(h));
            lemma_plain_scoped(*left, sure, outside, late, threshold);
            lemma_plain_scoped(
                *right,
                sure.union(binds(*left)),
                outside.union(plan_variables(*left)),
                late,
                threshold,
            );
        },
        Plan::Minus { left, right, .. } => {
            assert(hidden_variables(*left).subset_of(h) && hidden_variables(*right).subset_of(h));
            lemma_plain_scoped(*left, sure, outside, late, threshold);
            lemma_plain_scoped(*right, sure, outside, none, threshold);
        },
        Plan::Filter { inner, expression } | Plan::Extend { inner, expression, .. } => {
            assert(hidden_variables(*inner).subset_of(h));
            lemma_plain_scoped(*inner, sure, outside, late, threshold);
            lemma_plain_expr_scoped(
                expression,
                sure.union(binds(*inner)),
                outside.union(late).union(plan_variables(*inner)),
                threshold,
            );
            lemma_plain_covered(expression, late, sure.union(binds(*inner)), threshold);
        },
        Plan::Union { inner } => {
            assert(all_plain(inner));
            assert forall|i: int| 0 <= i < inner.len() implies scoped(
                #[trigger] inner[i],
                sure,
                outside,
                late,
                threshold,
            ) by {
                assert(hidden_variables(inner[i]).subset_of(h)) by {
                    assert forall|v: Seq<char>| #[trigger]
                        hidden_variables(inner[i]).contains(v) implies h.contains(v) by {
                        assert(all_paths(inner).contains((Trace::Hidden(v), true)));
                    }
                }
                lemma_plain_scoped(inner[i], sure, outside, late, threshold);
            }
            assert(all_scoped(inner, sure, outside, late, threshold));
        },
        Plan::OrderBy { inner, .. } | Plan::Slice { inner, .. } => {
            assert(hidden_variables(*inner).subset_of(h));
            lemma_plain_scoped(*inner, sure, outside, late, threshold);
            lemma_plain_scoped(*inner, sure, outside, none, threshold);
        },
        Plan::Distinct { inner } | Plan::Reduced { inner } => {
            assert(hidden_variables(*inner).subset_of(h));
            lemma_plain_scoped(*inner, sure, outside, none, threshold);
        },
        Plan::LeftJoin { left, right, expression, .. } => {
            assert(hidden_variables(*left).subset_of(h) && hidden_variables(*right).subset_of(h));
            let (l, r) = (plan_variables(*left), plan_variables(*right));
            lemma_plain_scoped(*left, sure, outside, late, threshold);
            lemma_plain_scoped(*left, sure, outside, late.union(r), threshold);
            lemma_bare(*right);
            lemma_plain_scoped(*right, sure, outside.union(late), late.union(l), threshold);
            assert(steady(*right, exposed(*left, *right, late.difference(sure)), sure));
            assert(copied_variables(*right).disjoint(outside.union(late).union(l)));
            let around = sure.union(binds(*left)).union(binds(*right));
            lemma_plain_expr_scoped(
                expression,
                around,
                outside.union(late).union(l).union(r),
                threshold,
            );
            lemma_plain_covered(expression, late, around, threshold);
        },
        Plan::Project { inner, variables } | Plan::Group { inner, variables, .. } => {
            assert(hidden_variables(*inner).subset_of(h));
            assert forall|v: Seq<char>| #[trigger]
                hidden(*inner, variables).contains(v) implies !outside.contains(v) by {
                assert(plan_paths(plan).contains((Trace::Hidden(v), true)));
                assert(h.contains(v));
            }
            lemma_plain_scoped(*inner, sure, outside, none, threshold);
        },
        _ => {},
    }
}

pub proof fn lemma_plain_expr_scoped(expression: Expr, sure: Names, outside: Names, threshold: nat)
    requires
        plain_expr(expression),
    ensures
        scoped_expr(expression, sure, outside, threshold),
        proper_expr(expression),
        !contains_exists(expression),
        !expr_has_subclass_path(expression),
    decreases expression,
{
    match expression {
        Expr::Or(inner)
        | Expr::And(inner)
        | Expr::Coalesce(inner)
        | Expr::FunctionCall(_, inner) => {
            assert(all_plain_exprs(inner));
            assert forall|i: int| 0 <= i < inner.len() implies scoped_expr(
                #[trigger] inner[i],
                sure,
                outside,
                threshold,
            ) && proper_expr(inner[i]) && !contains_exists(inner[i]) && !expr_has_subclass_path(
                inner[i],
            ) by {
                lemma_plain_expr_scoped(inner[i], sure, outside, threshold);
            }
            assert(all_scoped_exprs(inner, sure, outside, threshold));
            assert(all_proper_exprs(inner));
            assert(!any_contains_exists(inner));
            assert(!any_expr_has_subclass_path(inner));
        },
        Expr::Equal(left, right)
        | Expr::SameTerm(left, right)
        | Expr::Greater(left, right)
        | Expr::GreaterOrEqual(left, right)
        | Expr::Less(left, right)
        | Expr::LessOrEqual(left, right)
        | Expr::Add(left, right)
        | Expr::Subtract(left, right)
        | Expr::Multiply(left, right)
        | Expr::Divide(left, right) => {
            lemma_plain_expr_scoped(*left, sure, outside, threshold);
            lemma_plain_expr_scoped(*right, sure, outside, threshold);
        },
        Expr::UnaryPlus(inner) | Expr::UnaryMinus(inner) | Expr::Not(inner) => {
            lemma_plain_expr_scoped(*inner, sure, outside, threshold);
        },
        Expr::If(condition, then_case, else_case) => {
            lemma_plain_expr_scoped(*condition, sure, outside, threshold);
            lemma_plain_expr_scoped(*then_case, sure, outside, threshold);
            lemma_plain_expr_scoped(*else_case, sure, outside, threshold);
        },
        _ => {},
    }
}

proof fn lemma_plain_covered(expression: Expr, late: Names, sure: Names, threshold: nat)
    requires
        plain_expr(expression),
    ensures
        exists_covered(expression, late, sure),
    decreases expression,
{
    if let Expr::And(inner) = expression {
        assert(all_plain_exprs(inner));
        assert forall|i: int| 0 <= i < inner.len() implies exists_covered(
            #[trigger] inner[i],
            late,
            sure,
        ) by {
            lemma_plain_covered(inner[i], late, sure, threshold);
        }
        assert(all_exists_covered(inner, late, sure));
    } else {
        lemma_plain_expr_scoped(expression, sure, late, threshold);
    }
}

} // verus!
