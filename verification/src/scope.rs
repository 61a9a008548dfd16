//! Which variables a plan is sure to bind, and which names it hides.

use vstd::prelude::*;

use crate::algebra::{Expr, Plan, Row};
use crate::bags::{lemma_keep_contains, lemma_once};
use crate::builders::literal_truth;
use crate::eval_basics::{lemma_eval_within, lemma_find, within};
use crate::origins::{
    lemma_extend_origin, lemma_group_origin, lemma_join_origin, lemma_joined_origin,
    lemma_lateral_origin, lemma_left_join_origin, lemma_project_origin, lemma_slice_origin,
    lemma_table_origin, lemma_union_origin,
};
use crate::semantics::{
    condition, eval, hidden, is_lookup, is_nan, regular, remains, row_solutions, table, value,
    World,
};
use crate::solutions::{
    constant, hide_variables, lemma_joined_bags_contains, lemma_merge_extends, lookup, Solution,
};
use crate::term::{LiteralView, XSD_BOOLEAN};
use crate::type_inference::{cell, infer_call};
use crate::variables::{aggregate_names, plan_variables};

verus! {

/// Whether a column of a table has a value in every row.
pub open spec fn is_full_column(bindings: Seq<Row>, column: int) -> bool {
    forall|r: int| 0 <= r < bindings.len() ==> cell(#[trigger] bindings[r], column) is Some
}

/// The variables that have a value in every row of a table.
pub open spec fn full_columns(variables: Seq<Seq<char>>, bindings: Seq<Row>) -> Set<Seq<char>> {
    Set::new(
        |v: Seq<char>|
            bindings.len() == 0 || exists|c: int|
                0 <= c < variables.len() && #[trigger] variables[c] == v && is_full_column(
                    bindings,
                    c,
                ),
    )
}

/// Variables that have a value in every solution of a plan. A plan without
/// solutions may count as binding any variable.
pub open spec fn binds(plan: Plan) -> Set<Seq<char>>
    decreases plan,
{
    match plan {
        Plan::QuadPattern { .. } | Plan::Path { .. } | Plan::Graph { .. } => plan_variables(plan),
        Plan::Values { variables, bindings } => full_columns(variables, bindings),
        Plan::Join { left, right, .. } | Plan::Lateral { left, right } => binds(*left).union(
            binds(*right),
        ),
        Plan::LeftJoin { left, .. } | Plan::Minus { left, .. } => binds(*left),
        Plan::Filter { inner, .. }
        | Plan::Extend { inner, .. }
        | Plan::OrderBy { inner, .. }
        | Plan::Distinct { inner }
        | Plan::Reduced { inner }
        | Plan::Slice { inner, .. } => binds(*inner),
        Plan::Union { inner } => all_bind(inner),
        Plan::Project { inner, variables } => binds(*inner).intersect(variables.to_set()),
        Plan::Group { inner, variables, aggregates } => binds(*inner).intersect(
            variables.to_set(),
        ).difference(aggregate_names(aggregates)),
        Plan::Service { .. } => set![],
    }
}

/// Variables that every one of some plans binds.
pub open spec fn all_bind(plans: Seq<Plan>) -> Set<Seq<char>>
    decreases plans,
{
    Set::new(
        |v: Seq<char>| forall|i: int| 0 <= i < plans.len() ==> binds(#[trigger] plans[i]).contains(v),
    )
}

/// No projection or grouping hides a variable that has a value from outside:
/// the value belongs to another variable of the same name.
pub open spec fn hygienic(plan: Plan, outside: Set<Seq<char>>) -> bool
    decreases plan,
{
    match plan {
        Plan::QuadPattern { .. }
        | Plan::Path { .. }
        | Plan::Graph { .. }
        | Plan::Values { .. }
        | Plan::Service { .. } => true,
        Plan::Join { left, right, .. } | Plan::Minus { left, right, .. } => hygienic(*left, outside)
            && hygienic(*right, outside),
        Plan::Lateral { left, right } => hygienic(*left, outside) && hygienic(
            *right,
            outside.union(plan_variables(*left)),
        ),
        Plan::LeftJoin { left, right, expression, .. } => hygienic(*left, outside) && hygienic(
            *right,
            outside,
        ) && hygienic_expr(
            expression,
            outside.union(plan_variables(*left)).union(plan_variables(*right)),
        ),
        Plan::Filter { inner, expression } | Plan::Extend { inner, expression, .. } => {
            hygienic(*inner, outside) && hygienic_expr(
                expression,
                outside.union(plan_variables(*inner)),
            )
        },
        Plan::Union { inner } => all_hygienic(inner, outside),
        Plan::OrderBy { inner, .. }
        | Plan::Distinct { inner }
        | Plan::Reduced { inner }
        | Plan::Slice { inner, .. } => hygienic(*inner, outside),
        Plan::Project { inner, variables } | Plan::Group { inner, variables, .. } => {
            hygienic(*inner, outside) && hidden(*inner, variables).disjoint(outside)
        },
    }
}

pub open spec fn all_hygienic(plans: Seq<Plan>, outside: Set<Seq<char>>) -> bool
    decreases plans,
{
    forall|i: int| 0 <= i < plans.len() ==> hygienic(#[trigger] plans[i], outside)
}

/// A constant that is no ill-typed boolean.
pub open spec fn is_proper(literal: LiteralView) -> bool {
    literal.datatype == XSD_BOOLEAN@ ==> literal_truth(literal) is Some
}

/// An expression whose constants that can become its value are not the number that
/// does not equal itself.
pub open spec fn never_nan(expression: Expr) -> bool
    decreases expression,
{
    match expression {
        Expr::Literal(literal) => !is_nan(literal),
        Expr::If(_, then_case, else_case) => never_nan(*then_case) && never_nan(*else_case),
        _ => true,
    }
}

/// An expression whose constants that can become its value are proper.
pub open spec fn proper_expr(expression: Expr) -> bool
    decreases expression,
{
    match expression {
        Expr::Literal(literal) => is_proper(literal),
        Expr::Or(inner) | Expr::And(inner) => all_proper_exprs(inner),
        Expr::Not(inner) => proper_expr(*inner),
        Expr::If(_, then_case, else_case) => proper_expr(*then_case) && proper_expr(*else_case),
        _ => true,
    }
}

pub open spec fn all_proper_exprs(expressions: Seq<Expr>) -> bool
    decreases expressions,
{
    forall|i: int| 0 <= i < expressions.len() ==> proper_expr(#[trigger] expressions[i])
}

/// The same of the plans inside an expression.
pub open spec fn hygienic_expr(expression: Expr, outside: Set<Seq<char>>) -> bool
    decreases expression,
{
    match expression {
        Expr::NamedNode(_) | Expr::Literal(_) | Expr::Variable(_) | Expr::Bound(_) => true,
        Expr::Or(inner)
        | Expr::And(inner)
        | Expr::Coalesce(inner)
        | Expr::FunctionCall(_, inner) => all_hygienic_exprs(inner, outside),
        Expr::Equal(left, right)
        | Expr::SameTerm(left, right)
        | Expr::Greater(left, right)
        | Expr::GreaterOrEqual(left, right)
        | Expr::Less(left, right)
        | Expr::LessOrEqual(left, right)
        | Expr::Add(left, right)
        | Expr::Subtract(left, right)
        | Expr::Multiply(left, right)
        | Expr::Divide(left, right) => hygienic_expr(*left, outside) && hygienic_expr(
            *right,
            outside,
        ),
        Expr::UnaryPlus(inner) | Expr::UnaryMinus(inner) | Expr::Not(inner) => hygienic_expr(
            *inner,
            outside,
        ),
        Expr::If(condition, then_case, else_case) => hygienic_expr(*condition, outside)
            && hygienic_expr(*then_case, outside) && hygienic_expr(*else_case, outside),
        Expr::Exists(inner) => hygienic(*inner, outside),
    }
}

pub open spec fn all_hygienic_exprs(expressions: Seq<Expr>, outside: Set<Seq<char>>) -> bool
    decreases expressions,
{
    forall|i: int| 0 <= i < expressions.len() ==> hygienic_expr(#[trigger] expressions[i], outside)
}

/// Fewer variables from outside.
#[verifier::spinoff_prover]
pub proof fn lemma_hygienic_less(plan: Plan, outside: Set<Seq<char>>, less: Set<Seq<char>>)
    requires
        hygienic(plan, outside),
        less.subset_of(outside),
    ensures
        hygienic(plan, less),
    decreases plan,
{
    match plan {
        Plan::Join { left, right, .. } | Plan::Minus { left, right, .. } => {
            lemma_hygienic_less(*left, outside, less);
            lemma_hygienic_less(*right, outside, less);
        },
        Plan::Lateral { left, right } => {
            lemma_hygienic_less(*left, outside, less);
            let used = plan_variables(*left);
            lemma_hygienic_less(*right, outside.union(used), less.union(used));
        },
        Plan::LeftJoin { left, right, expression, .. } => {
            lemma_hygienic_less(*left, outside, less);
            lemma_hygienic_less(*right, outside, less);
            let (l, r) = (plan_variables(*left), plan_variables(*right));
            lemma_hygienic_expr_less(expression, outside.union(l).union(r), less.union(l).union(r));
        },
        Plan::Filter { inner, expression } | Plan::Extend { inner, expression, .. } => {
            lemma_hygienic_less(*inner, outside, less);
            let used = plan_variables(*inner);
            lemma_hygienic_expr_less(expression, outside.union(used), less.union(used));
        },
        Plan::Union { inner } => {
            assert(all_hygienic(inner, outside));
            assert forall|i: int| 0 <= i < inner.len() implies hygienic(
                #[trigger] inner[i],
                less,
            ) by {
                lemma_hygienic_less(inner[i], outside, less);
            }
            assert(all_hygienic(inner, less));
        },
        Plan::OrderBy { inner, .. }
        | Plan::Distinct { inner }
        | Plan::Reduced { inner }
        | Plan::Slice { inner, .. } => {
            lemma_hygienic_less(*inner, outside, less);
        },
        Plan::Project { inner, variables } | Plan::Group { inner, variables, .. } => {
            lemma_hygienic_less(*inner, outside, less);
            assert(hidden(*inner, variables).disjoint(less));
        },
        _ => {},
    }
}

pub proof fn lemma_hygienic_expr_less(
    expression: Expr,
    outside: Set<Seq<char>>,
    less: Set<Seq<char>>,
)
    requires
        hygienic_expr(expression, outside),
        less.subset_of(outside),
    ensures
        hygienic_expr(expression, less),
    decreases expression,
{
    match expression {
        Expr::Or(inner)
        | Expr::And(inner)
        | Expr::Coalesce(inner)
        | Expr::FunctionCall(_, inner) => {
            assert(all_hygienic_exprs(inner, outside));
            assert forall|i: int| 0 <= i < inner.len() implies hygienic_expr(
                #[trigger] inner[i],
                less,
            ) by {
                lemma_hygienic_expr_less(inner[i], outside, less);
            }
            assert(all_hygienic_exprs(inner, less));
        },
        Expr::Equal(left, right)
        | Expr::SameTerm(left, right)
        | Expr::Greater(left, right)
        | Expr::GreaterOrEqual(left, right)
        | Expr::Less(left, right)
        | Expr::LessOrEqual(left, right)
        | Expr::Add(left, right)
        | Expr::Subtract(left, right)
        | Expr::Multiply(left, right)
        | Expr::Divide(left, right) => {
            lemma_hygienic_expr_less(*left, outside, less);
            lemma_hygienic_expr_less(*right, outside, less);
        },
        Expr::UnaryPlus(inner) | Expr::UnaryMinus(inner) | Expr::Not(inner) => {
            lemma_hygienic_expr_less(*inner, outside, less);
        },
        Expr::If(condition, then_case, else_case) => {
            lemma_hygienic_expr_less(*condition, outside, less);
            lemma_hygienic_expr_less(*then_case, outside, less);
            lemma_hygienic_expr_less(*else_case, outside, less);
        },
        Expr::Exists(inner) => {
            lemma_hygienic_less(*inner, outside, less);
        },
        _ => {},
    }
}

/// Whether the type of an expression does not depend on those of its variables.
pub open spec fn has_kind(expression: Expr) -> bool
    decreases expression,
{
    match expression {
        Expr::Variable(_) => false,
        Expr::Coalesce(inner) => all_have_kind(inner),
        Expr::If(_, then_case, else_case) => has_kind(*then_case) && has_kind(*else_case),
        _ => true,
    }
}

/// Whether an expression may have a literal as its value, whatever the types of its
/// variables are.
pub open spec fn gives_literal(expression: Expr) -> bool
    decreases expression,
{
    match expression {
        Expr::NamedNode(_) | Expr::Variable(_) => false,
        Expr::Coalesce(inner) => inner.len() > 0 && gives_literal(inner[0]),
        Expr::If(_, then_case, else_case) => gives_literal(*then_case) && gives_literal(*else_case),
        Expr::FunctionCall(name, arguments) => infer_call(name, arguments.len()).literal,
        _ => true,
    }
}

pub open spec fn all_have_kind(expressions: Seq<Expr>) -> bool
    decreases expressions,
{
    forall|i: int| 0 <= i < expressions.len() ==> has_kind(#[trigger] expressions[i])
}

proof fn lemma_row_binds(
    variables: Seq<Seq<char>>,
    row: Row,
    count: int,
    column: int,
    t: Solution,
)
    requires
        row_solutions(variables, row, count).contains(t),
        0 <= column < count,
        cell(row, column) is Some,
    ensures
        t.dom().contains(variables[column]),
    decreases count,
{
    let before = row_solutions(variables, row, count - 1);
    if count <= row.len() {
        match row[count - 1] {
            Some(term) => {
                let last: Solution = Map::empty().insert(variables[count - 1], constant(term));
                let (j, k) = lemma_joined_bags_contains(before, seq![last], t);
                lemma_merge_extends(before[j], last);
                assert(before.contains(before[j]));
                if column < count - 1 {
                    lemma_row_binds(variables, row, count - 1, column, before[j]);
                } else {
                    assert(last.dom().contains(variables[column]));
                }
            },
            None => {
                lemma_row_binds(variables, row, count - 1, column, t);
            },
        }
    } else {
        lemma_row_binds(variables, row, count - 1, column, t);
    }
}

/// Every solution of a plan has values of the variables that the plan binds.
#[verifier::spinoff_prover]
pub proof fn lemma_eval_binds(world: World, plan: Plan, input: Solution, t: Solution)
    requires
        regular(world),
        eval(world, plan, input).contains(t),
    ensures
        binds(plan).subset_of(t.dom()),
    decreases plan,
{
    match plan {
        Plan::QuadPattern { .. } | Plan::Path { .. } | Plan::Graph { .. } => {
            let atoms = (world.atom)(plan);
            let k = lemma_joined_origin(input, atoms, t);
            assert(is_lookup(plan));
            assert((world.atom)(plan)[k].dom() == plan_variables(plan));
            lemma_merge_extends(input, atoms[k]);
            assert(binds(plan) == plan_variables(plan));
        },
        Plan::Service { .. } => {
            assert(binds(plan) =~= set![]);
        },
        Plan::Values { variables, bindings } => {
            let rows = table(variables, bindings);
            let k = lemma_joined_origin(input, rows, t);
            assert(rows.contains(rows[k]));
            let r = lemma_table_origin(variables, bindings, rows[k]);
            lemma_merge_extends(input, rows[k]);
            assert forall|v: Seq<char>| #[trigger] binds(plan).contains(v) implies t.dom().contains(
                v,
            ) by {
                let c = choose|c: int|
                    0 <= c < variables.len() && #[trigger] variables[c] == v && is_full_column(
                        bindings,
                        c,
                    );
                assert(cell(bindings[r], c) is Some);
                lemma_row_binds(variables, bindings[r], variables.len() as int, c, rows[k]);
            }
        },
        Plan::Join { left, right, keys } => {
            let (s, x) = lemma_join_origin(world, *left, *right, input, keys, t);
            lemma_eval_binds(world, *left, input, s);
            lemma_eval_binds(world, *right, input, x);
            lemma_merge_extends(s, x);
        },
        Plan::Lateral { left, right } => {
            let s = lemma_lateral_origin(world, *left, *right, input, t);
            lemma_eval_binds(world, *left, input, s);
            lemma_eval_binds(world, *right, s, t);
            lemma_eval_within(world, *right, s);
            let k = lemma_find(eval(world, *right, s), t);
            assert(within(t, s, plan_variables(*right)));
        },
        Plan::LeftJoin { left, right, expression, keys } => {
            let (s, x) = lemma_left_join_origin(
                world,
                *left,
                *right,
                expression,
                input,
                keys,
                t,
            );
            lemma_eval_binds(world, *left, input, s);
            if let Some(x) = x {
                lemma_merge_extends(s, x);
            }
        },
        Plan::Minus { left, right, .. } => {
            let (l, r) = (eval(world, *left, input), eval(world, *right, input));
            lemma_keep_contains(l, remains(r, input), t);
            lemma_eval_binds(world, *left, input, t);
        },
        Plan::Filter { inner, expression } => {
            lemma_keep_contains(eval(world, *inner, input), condition(world, expression), t);
            lemma_eval_binds(world, *inner, input, t);
        },
        Plan::Extend { inner, variable, expression } => {
            let s = lemma_extend_origin(world, *inner, variable, expression, input, t);
            lemma_eval_binds(world, *inner, input, s);
            if let Some(term) = value(world, expression, s) {
                lemma_merge_extends(s, Map::empty().insert(variable, term));
            }
        },
        Plan::Union { inner } => {
            let k = lemma_union_origin(world, inner, input, t);
            lemma_eval_binds(world, inner[k], input, t);
            assert forall|v: Seq<char>| #[trigger] all_bind(inner).contains(v) implies t.dom().contains(
                v,
            ) by {
                assert(binds(inner[k]).contains(v));
            }
            assert(binds(plan) == all_bind(inner));
            assert(binds(plan).subset_of(t.dom()));
        },
        Plan::OrderBy { inner, .. } => {
            lemma_eval_binds(world, *inner, input, t);
        },
        Plan::Distinct { inner } | Plan::Reduced { inner } => {
            lemma_once(eval(world, *inner, input));
            lemma_eval_binds(world, *inner, input, t);
        },
        Plan::Slice { inner, start, length } => {
            lemma_slice_origin(world, *inner, start, length, input, t);
            lemma_eval_binds(world, *inner, input, t);
        },
        Plan::Project { inner, variables } => {
            let local = hidden(*inner, variables);
            let s = lemma_project_origin(world, *inner, variables, input, t);
            lemma_eval_binds(world, *inner, hide_variables(input, local), s);
            lemma_merge_extends(input, hide_variables(s, local));
        },
        Plan::Group { inner, variables, aggregates } => {
            let base = hide_variables(input, hidden(*inner, variables));
            let (g, s) = lemma_group_origin(world, *inner, variables, aggregates, input, t);
            lemma_merge_extends(input, g);
            assert forall|v: Seq<char>| #[trigger] binds(plan).contains(v) implies t.dom().contains(
                v,
            ) by {
                assert(variables.contains(v) && !aggregate_names(aggregates).contains(v));
                assert(variables.len() > 0);
                lemma_eval_binds(world, *inner, base, s);
                assert(lookup(g, v) == lookup(s, v));
            }
        },
    }
}

} // verus!
