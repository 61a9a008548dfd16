//! The variables that the types tell of wherever a plan may bind them.

use vstd::prelude::*;

use crate::algebra::{is_atom, AggregateExpr, Expr, Plan, Row};
use crate::scope::gives_literal;
use crate::scoping::{
    all_loose, all_paths, lacking, odd_variables, of_kind, plan_paths, Names, Trace,
};
use crate::term::{NodePatternView, TermPatternView};
use crate::type_inference::{
    column_type, distinct_variables, infer, infer_aggregates, infer_coalesce, infer_expr,
    infer_graph_name, infer_node, infer_table, infer_term, infer_union, optional, projected,
    type_of, Types, VariableType,
};
use crate::type_laws::{
    lemma_assign_types, lemma_infer_distinct, lemma_intersect_types, lemma_optional_types,
    lemma_projected_types, lemma_refine_types, lemma_unite_types,
};
use crate::variables::{
    aggregate_names, graph_name_variables, node_variables, plan_variables, term_variables,
};

verus! {

/// A variable that may have no value, or one of a kind.
pub open spec fn is_open(t: VariableType, literal: bool) -> bool {
    t.undef || of_kind(t, literal)
}

/// Types where a variable may have no value or one of a kind; one of that kind is
/// among its values if a part was found to bind it.
pub open spec fn opens(types: Types, v: Seq<char>, literal: bool, found: bool) -> bool {
    &&& distinct_variables(types)
    &&& is_open(type_of(types, v), literal)
    &&& found ==> of_kind(type_of(types, v), literal)
}

proof fn lemma_node_opens(
    pattern: NodePatternView,
    types: Types,
    v: Seq<char>,
    literal: bool,
    found: bool,
)
    requires
        opens(types, v, literal, found),
        literal ==> !node_variables(pattern).contains(v),
    ensures
        opens(infer_node(pattern, types), v, literal, found || node_variables(pattern).contains(v)),
{
    if let NodePatternView::Variable(x) = pattern {
        lemma_refine_types(types, x, VariableType::of_named_node());
        assert(node_variables(pattern).contains(x));
    }
}

proof fn lemma_term_opens(
    pattern: TermPatternView,
    is_object: bool,
    types: Types,
    v: Seq<char>,
    literal: bool,
    found: bool,
)
    requires
        opens(types, v, literal, found),
        literal ==> !term_variables(pattern).contains(v) || is_object && pattern is Variable,
    ensures
        opens(
            infer_term(pattern, is_object, types),
            v,
            literal,
            found || term_variables(pattern).contains(v),
        ),
    decreases pattern,
{
    match pattern {
        TermPatternView::Variable(x) => {
            lemma_refine_types(types, x, VariableType::of_term());
            lemma_refine_types(types, x, VariableType::of_subject());
            assert(term_variables(pattern).contains(x));
        },
        TermPatternView::Triple { subject, predicate, object } => {
            let a = infer_term(*subject, false, types);
            let b = infer_node(predicate, a);
            let in_subject = found || term_variables(*subject).contains(v);
            assert(term_variables(*subject).subset_of(term_variables(pattern)));
            assert(node_variables(predicate).subset_of(term_variables(pattern)));
            assert(term_variables(*object).subset_of(term_variables(pattern)));
            lemma_term_opens(*subject, false, types, v, literal, found);
            lemma_node_opens(predicate, a, v, literal, in_subject);
            lemma_term_opens(
                *object,
                true,
                b,
                v,
                literal,
                in_subject || node_variables(predicate).contains(v),
            );
        },
        _ => {},
    }
}

proof fn lemma_graph_name_opens(
    graph_name: Option<NodePatternView>,
    types: Types,
    v: Seq<char>,
    literal: bool,
    found: bool,
)
    requires
        opens(types, v, literal, found),
        literal ==> !graph_name_variables(graph_name).contains(v),
    ensures
        opens(
            infer_graph_name(graph_name, types),
            v,
            literal,
            found || graph_name_variables(graph_name).contains(v),
        ),
{
    if let Some(pattern) = graph_name {
        lemma_node_opens(pattern, types, v, literal, found);
    }
}

/// A table all of whose columns of a variable have a value of a kind.
proof fn lemma_table_opens(
    variables: Seq<Seq<char>>,
    bindings: Seq<Row>,
    columns: int,
    types: Types,
    v: Seq<char>,
    literal: bool,
    found: bool,
)
    requires
        opens(types, v, literal, found),
        columns <= variables.len(),
        !lacking(variables, bindings, literal).contains(v),
    ensures
        opens(
            infer_table(variables, bindings, columns, types),
            v,
            literal,
            found || exists|c: int| 0 <= c < columns && #[trigger] variables[c] == v,
        ),
    decreases columns,
{
    if columns > 0 {
        let before = infer_table(variables, bindings, columns - 1, types);
        let t = column_type(bindings, columns - 1);
        lemma_table_opens(variables, bindings, columns - 1, types, v, literal, found);
        lemma_refine_types(before, variables[columns - 1], t);
        if variables[columns - 1] == v {
            assert(of_kind(t, literal));
        }
        if exists|c: int| 0 <= c < columns && #[trigger] variables[c] == v {
            let c = choose|c: int| 0 <= c < columns && #[trigger] variables[c] == v;
            if c < columns - 1 {
                assert(exists|c: int| 0 <= c < columns - 1 && #[trigger] variables[c] == v);
            }
        }
    }
}

/// The type of an expression that may have a literal as its value.
proof fn lemma_gives_literal(expression: Expr, types: Types)
    requires
        gives_literal(expression),
    ensures
        infer_expr(expression, types).literal,
    decreases expression, 0int,
{
    match expression {
        Expr::If(_, then_case, else_case) => {
            lemma_gives_literal(*then_case, types);
            lemma_gives_literal(*else_case, types);
        },
        Expr::Coalesce(inner) => {
            lemma_gives_literal(inner[0], types);
            lemma_coalesce_literal(inner, inner.len() as int, types);
        },
        _ => {},
    }
}

proof fn lemma_coalesce_literal(inner: Seq<Expr>, count: int, types: Types)
    requires
        1 <= count <= inner.len(),
        infer_expr(inner[0], types).literal,
    ensures
        infer_coalesce(inner, count, types).literal,
    decreases count,
{
    if count == 1 {
        assert(infer_coalesce(inner, 0, types) == VariableType::of_undef());
    } else {
        lemma_coalesce_literal(inner, count - 1, types);
    }
}

proof fn lemma_aggregates_apart(
    aggregates: Seq<(Seq<char>, AggregateExpr)>,
    types: Types,
    v: Seq<char>,
)
    requires
        distinct_variables(types),
        !aggregate_names(aggregates).contains(v),
    ensures
        distinct_variables(infer_aggregates(aggregates, types)),
        type_of(infer_aggregates(aggregates, types), v) == type_of(types, v),
    decreases aggregates.len(),
{
    if aggregates.len() > 0 {
        let shorter = aggregates.drop_last();
        let last = aggregates.last();
        let all = aggregates.map_values(|a: (Seq<char>, AggregateExpr)| a.0);
        let some = shorter.map_values(|a: (Seq<char>, AggregateExpr)| a.0);
        assert(!aggregate_names(shorter).contains(v)) by {
            if some.contains(v) {
                let i = choose|i: int| 0 <= i < some.len() && some[i] == v;
                assert(all[i] == v);
            }
        }
        assert(all[all.len() - 1] == last.0);
        lemma_aggregates_apart(shorter, types, v);
        lemma_assign_types(infer_aggregates(shorter, types), last.0, VariableType::of_anything());
    }
}

pub proof fn lemma_firm_union(
    inner: Seq<Plan>,
    count: int,
    types: Types,
    v: Seq<char>,
    literal: bool,
)
    requires
        0 < count <= inner.len(),
        opens(types, v, literal, false),
        !odd_variables(Plan::Union { inner }, literal).contains(v),
    ensures
        opens(
            infer_union(inner.take(count), types),
            v,
            literal,
            of_kind(type_of(types, v), literal),
        ),
        forall|i: int|
            0 <= i < count && of_kind(type_of(infer(#[trigger] inner[i], types), v), literal)
                ==> of_kind(type_of(infer_union(inner.take(count), types), v), literal),
    decreases inner, count,
{
    let part = inner.take(count);
    let last = inner[count - 1];
    lemma_odd_part(inner, count - 1, literal);
    lemma_firm(last, types, v, literal);
    if count == 1 {
        assert(part[0] == last);
    } else {
        let shorter = inner.take(count - 1);
        assert(part.drop_last() =~= shorter);
        lemma_firm_union(inner, count - 1, types, v, literal);
        lemma_unite_types(infer_union(shorter, types), infer(last, types));
    }
}

pub proof fn lemma_odd_part(inner: Seq<Plan>, i: int, literal: bool)
    requires
        0 <= i < inner.len(),
    ensures
        odd_variables(inner[i], literal).subset_of(
            odd_variables(Plan::Union { inner }, literal),
        ),
{
    let plan = Plan::Union { inner };
    assert forall|x: Seq<char>| #[trigger]
        odd_variables(inner[i], literal).contains(x) implies odd_variables(plan, literal).contains(
        x,
    ) by {
        if plan_paths(inner[i]).contains((Trace::Hidden(x), true)) {
            assert(all_paths(inner).contains((Trace::Hidden(x), true)));
        } else if literal {
            assert(all_paths(inner).contains((Trace::NoLiteral(x), false)));
        } else {
            assert(all_paths(inner).contains((Trace::NoNode(x), false)));
        }
    }
}

/// What is loose is odd.
pub proof fn lemma_loose_odd(plan: Plan, names: Names, literal: bool)
    requires
        all_loose(names).subset_of(plan_paths(plan)),
    ensures
        names.subset_of(odd_variables(plan, literal)),
{
    assert forall|v: Seq<char>| #[trigger] names.contains(v) implies odd_variables(
        plan,
        literal,
    ).contains(v) by {
        assert(all_loose(names).contains((Trace::NoNode(v), false)));
        assert(all_loose(names).contains((Trace::NoLiteral(v), false)));
    }
}

/// A variable whose values in all parts have a kind in common may have no value or
/// one of that kind. It may have one of that kind if it may have one before, or if
/// a pattern or table binds it.
#[verifier::spinoff_prover]
#[verifier::rlimit(40)]
pub proof fn lemma_firm(plan: Plan, types: Types, v: Seq<char>, literal: bool)
    requires
        opens(types, v, literal, false),
        !odd_variables(plan, literal).contains(v),
    ensures
        opens(
            infer(plan, types),
            v,
            literal,
            of_kind(type_of(types, v), literal) || (is_atom(plan) || plan is Values)
                && plan_variables(plan).contains(v) || assigns(plan, v),
        ),
    decreases plan, 0int,
{
    let known = of_kind(type_of(types, v), literal);
    let odd = odd_variables(plan, literal);
    match plan {
        Plan::QuadPattern { subject, predicate, object, graph_name } => {
            let a = infer_term(subject, false, types);
            let b = infer_node(predicate, a);
            let c = infer_term(object, true, b);
            let x = known || term_variables(subject).contains(v);
            let y = x || node_variables(predicate).contains(v);
            if literal {
                assert(!plan_paths(plan).contains((Trace::NoLiteral(v), false)));
            }
            lemma_term_opens(subject, false, types, v, literal, known);
            lemma_node_opens(predicate, a, v, literal, x);
            lemma_term_opens(object, true, b, v, literal, y);
            lemma_graph_name_opens(
                graph_name,
                c,
                v,
                literal,
                y || term_variables(object).contains(v),
            );
        },
        Plan::Path { subject, object, graph_name, .. } => {
            let a = infer_term(subject, true, types);
            let b = infer_term(object, true, a);
            let x = known || term_variables(subject).contains(v);
            if literal {
                assert(!plan_paths(plan).contains((Trace::NoLiteral(v), false)));
            }
            lemma_term_opens(subject, true, types, v, literal, known);
            lemma_term_opens(object, true, a, v, literal, x);
            lemma_graph_name_opens(
                graph_name,
                b,
                v,
                literal,
                x || term_variables(object).contains(v),
            );
        },
        Plan::Graph { graph_name } => {
            if literal {
                assert(!plan_paths(plan).contains((Trace::NoLiteral(v), false)));
            }
            lemma_node_opens(graph_name, types, v, literal, known);
        },
        Plan::Values { variables, bindings } => {
            if literal {
                assert(!plan_paths(plan).contains((Trace::NoLiteral(v), false)));
            } else {
                assert(!plan_paths(plan).contains((Trace::NoNode(v), false)));
            }
            let n = variables.len() as int;
            lemma_table_opens(variables, bindings, n, types, v, literal, known);
            if variables.contains(v) {
                let c = choose|c: int| 0 <= c < variables.len() && variables[c] == v;
                assert(variables[c] == v);
            }
        },
        Plan::Join { left, right, .. } => {
            assert(odd_variables(*left, literal).subset_of(odd));
            assert(odd_variables(*right, literal).subset_of(odd));
            lemma_firm(*left, types, v, literal);
            lemma_firm(*right, types, v, literal);
            lemma_intersect_types(infer(*left, types), infer(*right, types));
        },
        Plan::Lateral { left, right } => {
            assert(odd_variables(*left, literal).subset_of(odd));
            assert(odd_variables(*right, literal).subset_of(odd));
            lemma_firm(*left, types, v, literal);
            lemma_firm(*right, infer(*left, types), v, literal);
        },
        Plan::LeftJoin { left, right, .. } => {
            let (a, b) = (infer(*left, types), infer(*right, types));
            assert(odd_variables(*left, literal).subset_of(odd));
            assert(odd_variables(*right, literal).subset_of(odd));
            lemma_firm(*left, types, v, literal);
            lemma_firm(*right, types, v, literal);
            lemma_optional_types(b);
            lemma_intersect_types(a, optional(b));
        },
        Plan::Minus { left, .. } => {
            assert(odd_variables(*left, literal).subset_of(odd));
            lemma_firm(*left, types, v, literal);
        },
        Plan::Filter { inner, .. }
        | Plan::OrderBy { inner, .. }
        | Plan::Distinct { inner }
        | Plan::Reduced { inner }
        | Plan::Slice { inner, .. } => {
            assert(odd_variables(*inner, literal).subset_of(odd));
            lemma_firm(*inner, types, v, literal);
        },
        Plan::Extend { inner, variable, expression } => {
            let t = infer(*inner, types);
            assert(odd_variables(*inner, literal).subset_of(odd));
            lemma_firm(*inner, types, v, literal);
            lemma_refine_types(t, variable, infer_expr(expression, t));
            if v == variable {
                if !gives_literal(expression) {
                    lemma_loose_odd(plan, set![variable], literal);
                } else {
                    assert(plan_paths(plan).contains((Trace::NoNode(v), false)));
                    lemma_gives_literal(expression, t);
                }
            }
        },
        Plan::Union { inner } => {
            if inner.len() == 0 {
                lemma_loose_odd(plan, Set::full(), literal);
            } else {
                lemma_firm_union(inner, inner.len() as int, types, v, literal);
                assert(inner.take(inner.len() as int) =~= inner);
            }
        },
        Plan::Project { inner, variables } => {
            lemma_loose_odd(plan, variables.to_set(), literal);
            lemma_infer_distinct(*inner, types);
            lemma_projected_types(types, infer(*inner, types), variables);
        },
        Plan::Group { inner, variables, aggregates } => {
            lemma_loose_odd(plan, plan_variables(plan), literal);
            lemma_infer_distinct(*inner, types);
            let shown = projected(types, infer(*inner, types), variables);
            lemma_projected_types(types, infer(*inner, types), variables);
            lemma_aggregates_apart(aggregates, shown, v);
        },
        Plan::Service { .. } => {
            lemma_loose_odd(plan, Set::full(), literal);
        },
    }
}

/// Whether a plan gives a variable the value of an expression.
pub open spec fn assigns(plan: Plan, v: Seq<char>) -> bool {
    match plan {
        Plan::Extend { variable, .. } => v == variable,
        _ => false,
    }
}

/// A variable that nothing in a plan binds, as its types tell by one kind of values
/// or the other.
pub open spec fn ignored(plan: Plan, types: Types, v: Seq<char>) -> bool {
    unheard(plan, types, v, false) || unheard(plan, types, v, true)
}

/// A variable that nothing in a plan binds, as its types tell by a kind of values.
pub open spec fn unheard(plan: Plan, types: Types, v: Seq<char>, literal: bool) -> bool {
    &&& !odd_variables(plan, literal).contains(v)
    &&& is_open(type_of(types, v), literal)
    &&& !of_kind(type_of(infer(plan, types), v), literal)
}

} // verus!
