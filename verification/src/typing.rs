//! The inferred types are right: every solution of a plan has values of the
//! types that inference gives for it.

use vstd::prelude::*;

use crate::algebra::{is_atom, Expr, Plan, Row};
use crate::bags::{lemma_keep_contains, lemma_once};
use crate::eval_basics::{lemma_eval_within, lemma_find, within};
use crate::origins::{
    lemma_extend_origin, lemma_group_origin, lemma_join_origin, lemma_joined_origin,
    lemma_lateral_origin, lemma_left_join_origin, lemma_project_origin, lemma_slice_origin,
    lemma_table_origin, lemma_union_origin,
};
use crate::scope::{
    all_bind, all_have_kind, all_hygienic, binds, has_kind, hygienic, is_full_column,
    lemma_eval_binds,
};
use crate::scoping::{all_paths, copied_variables, plan_paths, Trace};
use crate::semantics::{
    allowed, condition, eval, first_value, graph_name_fits, has_types, hidden, is_lookup,
    match_fits, node_fits, of_type, regular, remains, row_solutions, table, term_fits, typed, value,
    values, World,
};
use crate::solutions::{
    compatible, constant, hide_variables, lemma_joined_bags_contains, lemma_merge_assoc,
    lemma_merge_extends, lookup, merge, Solution, Term,
};
use crate::term::{NodePatternView, TermPatternView};
use crate::type_inference::{
    cell, column_type, distinct_variables, infer, infer_call, infer_coalesce, infer_expr,
    infer_graph_name, infer_node, infer_table, infer_term, infer_union, intersect, optional,
    projected, refine, type_of, unite, Types, VariableType,
};
use crate::type_laws::{
    lemma_aggregate_types, lemma_infer_distinct, lemma_intersect_types, lemma_optional_types,
    lemma_projected_types, lemma_refine_types, lemma_unite_types,
};
use crate::variables::{
    aggregate_names, expr_variables, exprs_variables, graph_name_variables, node_variables,
    plan_variables, term_variables,
};

verus! {

/// What one of two sides has, where both agree.
pub open spec fn either(first: Option<Term>, second: Option<Term>) -> Option<Term> {
    match second {
        Some(term) => Some(term),
        None => first,
    }
}

/// A value that two sides allow together.
proof fn lemma_allowed_both(
    t1: VariableType,
    t2: VariableType,
    x1: Option<Term>,
    x2: Option<Term>,
    f1: bool,
    f2: bool,
)
    requires
        allowed(t1, x1, f1),
        allowed(t2, x2, f2),
        x1 is Some && x2 is Some ==> x1 == x2,
        !f1 && f2 && x2 is Some ==> x1 is Some,
        f1 && !f2 && x1 is Some ==> x2 is Some,
    ensures
        allowed(t2.and_spec(t1), either(x1, x2), f1 && f2),
{
}

pub proof fn lemma_typed_merge(
    s: Solution,
    x: Solution,
    left: Types,
    right: Types,
    f1: Set<Seq<char>>,
    f2: Set<Seq<char>>,
)
    requires
        distinct_variables(left),
        distinct_variables(right),
        typed(s, left, f1),
        typed(x, right, f2),
        compatible(s, x),
        f2.difference(f1).subset_of(s.dom()),
        f1.difference(f2).subset_of(x.dom()),
    ensures
        typed(merge(s, x), intersect(left, right), f1.intersect(f2)),
{
    lemma_intersect_types(left, right);
    let both = intersect(left, right);
    assert forall|v: Seq<char>|
        allowed(
            #[trigger] type_of(both, v),
            lookup(merge(s, x), v),
            f1.intersect(f2).contains(v),
        ) by {
        assert(allowed(type_of(left, v), lookup(s, v), f1.contains(v)));
        assert(allowed(type_of(right, v), lookup(x, v), f2.contains(v)));
        if f2.contains(v) && !f1.contains(v) {
            assert(f2.difference(f1).contains(v));
        }
        if f1.contains(v) && !f2.contains(v) {
            assert(f1.difference(f2).contains(v));
        }
        lemma_allowed_both(
            type_of(left, v),
            type_of(right, v),
            lookup(s, v),
            lookup(x, v),
            f1.contains(v),
            f2.contains(v),
        );
    }
}

/// The solution with one more value, if there is one.
pub open spec fn with_value(s: Solution, variable: Seq<char>, value: Option<Term>) -> Solution {
    match value {
        Some(term) => merge(s, Map::empty().insert(variable, term)),
        None => s,
    }
}

proof fn lemma_typed_refine(
    s: Solution,
    types: Types,
    variable: Seq<char>,
    t: VariableType,
    y: Option<Term>,
    free: Set<Seq<char>>,
    free_value: bool,
)
    requires
        distinct_variables(types),
        typed(s, types, free),
        allowed(t, y, free_value),
        s.dom().contains(variable) && y is Some ==> y == Some(s[variable]),
        !free.contains(variable) && free_value && y is Some ==> s.dom().contains(variable),
        free.contains(variable) && !free_value && s.dom().contains(variable) ==> y is Some,
    ensures
        typed(
            with_value(s, variable, y),
            refine(types, variable, t),
            if free_value {
                free
            } else {
                free.remove(variable)
            },
        ),
        distinct_variables(refine(types, variable, t)),
{
    lemma_refine_types(types, variable, t);
    let r = refine(types, variable, t);
    let m = with_value(s, variable, y);
    let f = if free_value {
        free
    } else {
        free.remove(variable)
    };
    assert forall|v: Seq<char>|
        allowed(#[trigger] type_of(r, v), lookup(m, v), f.contains(v)) by {
        assert(allowed(type_of(types, v), lookup(s, v), free.contains(v)));
        if v == variable {
            lemma_allowed_both(
                type_of(types, v),
                t,
                lookup(s, v),
                y,
                free.contains(v),
                free_value,
            );
            assert(lookup(m, v) == either(lookup(s, v), y));
        } else {
            assert(lookup(m, v) == lookup(s, v));
        }
    }
}

proof fn lemma_merge_restricted(s: Solution, g: Solution, a: Set<Seq<char>>, b: Set<Seq<char>>)
    requires
        compatible(s, g),
    ensures
        merge(merge(s, g.restrict(a)), g.restrict(b)) == merge(s, g.restrict(a.union(b))),
        compatible(merge(s, g.restrict(a)), g),
{
    assert(merge(merge(s, g.restrict(a)), g.restrict(b)) =~= merge(s, g.restrict(a.union(b))));
}

proof fn lemma_node_typed(
    pattern: NodePatternView,
    s: Solution,
    g: Solution,
    types: Types,
    free: Set<Seq<char>>,
)
    requires
        distinct_variables(types),
        typed(s, types, free),
        compatible(s, g),
        node_fits(pattern, g),
    ensures
        typed(
            merge(s, g.restrict(node_variables(pattern))),
            infer_node(pattern, types),
            free.difference(node_variables(pattern)),
        ),
        distinct_variables(infer_node(pattern, types)),
{
    let used = node_variables(pattern);
    match pattern {
        NodePatternView::Variable(v) => {
            lemma_variable_typed(v, VariableType::of_named_node(), s, g, types, free);
            assert(free.difference(used) =~= free.remove(v));
        },
        NodePatternView::NamedNode(_) => {
            assert(merge(s, g.restrict(used)) =~= s);
            assert(free.difference(used) =~= free);
        },
    }
}

proof fn lemma_variable_typed(
    v: Seq<char>,
    t: VariableType,
    s: Solution,
    g: Solution,
    types: Types,
    free: Set<Seq<char>>,
)
    requires
        distinct_variables(types),
        typed(s, types, free),
        compatible(s, g),
        of_type(t, lookup(g, v)),
        !t.undef,
    ensures
        typed(merge(s, g.restrict(set![v])), refine(types, v, t), free.remove(v)),
        distinct_variables(refine(types, v, t)),
{
    lemma_typed_refine(s, types, v, t, lookup(g, v), free, false);
    assert(merge(s, g.restrict(set![v])) =~= with_value(s, v, lookup(g, v)));
}

proof fn lemma_term_typed(
    pattern: TermPatternView,
    is_object: bool,
    s: Solution,
    g: Solution,
    types: Types,
    free: Set<Seq<char>>,
)
    requires
        distinct_variables(types),
        typed(s, types, free),
        compatible(s, g),
        term_fits(pattern, is_object, g),
    ensures
        typed(
            merge(s, g.restrict(term_variables(pattern))),
            infer_term(pattern, is_object, types),
            free.difference(term_variables(pattern)),
        ),
        distinct_variables(infer_term(pattern, is_object, types)),
    decreases pattern,
{
    let used = term_variables(pattern);
    match pattern {
        TermPatternView::Variable(v) => {
            let t = if is_object {
                VariableType::of_term()
            } else {
                VariableType::of_subject()
            };
            lemma_variable_typed(v, t, s, g, types, free);
            assert(free.difference(used) =~= free.remove(v));
        },
        TermPatternView::Triple { subject, predicate, object } => {
            let (a, b, c) = (
                term_variables(*subject),
                node_variables(predicate),
                term_variables(*object),
            );
            lemma_term_typed(*subject, false, s, g, types, free);
            lemma_merge_restricted(s, g, a, b);
            let s1 = merge(s, g.restrict(a));
            let t1 = infer_term(*subject, false, types);
            lemma_node_typed(predicate, s1, g, t1, free.difference(a));
            lemma_merge_restricted(s, g, a.union(b), c);
            let t2 = infer_node(predicate, t1);
            lemma_term_typed(
                *object,
                true,
                merge(s, g.restrict(a.union(b))),
                g,
                t2,
                free.difference(a).difference(b),
            );
            assert(free.difference(a).difference(b).difference(c) =~= free.difference(used));
        },
        _ => {
            assert(merge(s, g.restrict(used)) =~= s);
            assert(free.difference(used) =~= free);
        },
    }
}

proof fn lemma_graph_name_typed(
    graph_name: Option<NodePatternView>,
    s: Solution,
    g: Solution,
    types: Types,
    free: Set<Seq<char>>,
)
    requires
        distinct_variables(types),
        typed(s, types, free),
        compatible(s, g),
        graph_name_fits(graph_name, g),
    ensures
        typed(
            merge(s, g.restrict(graph_name_variables(graph_name))),
            infer_graph_name(graph_name, types),
            free.difference(graph_name_variables(graph_name)),
        ),
        distinct_variables(infer_graph_name(graph_name, types)),
{
    match graph_name {
        Some(pattern) => {
            lemma_node_typed(pattern, s, g, types, free);
        },
        None => {
            let used = graph_name_variables(graph_name);
            assert(merge(s, g.restrict(used)) =~= s);
            assert(free.difference(used) =~= free);
        },
    }
}

/// A match of an atom, joined with the input, has the inferred types.
proof fn lemma_match_typed(
    plan: Plan,
    s: Solution,
    g: Solution,
    types: Types,
    free: Set<Seq<char>>,
)
    requires
        is_atom(plan),
        distinct_variables(types),
        typed(s, types, free),
        compatible(s, g),
        match_fits(plan, g),
        g.dom() == plan_variables(plan),
    ensures
        typed(merge(s, g), infer(plan, types), free.difference(plan_variables(plan))),
{
    let used = plan_variables(plan);
    assert(g.restrict(used) =~= g);
    match plan {
        Plan::QuadPattern { subject, predicate, object, graph_name } => {
            let (a, b, c, d) = (
                term_variables(subject),
                node_variables(predicate),
                term_variables(object),
                graph_name_variables(graph_name),
            );
            lemma_term_typed(subject, false, s, g, types, free);
            let t1 = infer_term(subject, false, types);
            lemma_merge_restricted(s, g, a, b);
            lemma_node_typed(predicate, merge(s, g.restrict(a)), g, t1, free.difference(a));
            let t2 = infer_node(predicate, t1);
            lemma_merge_restricted(s, g, a.union(b), c);
            lemma_term_typed(
                object,
                true,
                merge(s, g.restrict(a.union(b))),
                g,
                t2,
                free.difference(a).difference(b),
            );
            let t3 = infer_term(object, true, t2);
            lemma_merge_restricted(s, g, a.union(b).union(c), d);
            lemma_graph_name_typed(
                graph_name,
                merge(s, g.restrict(a.union(b).union(c))),
                g,
                t3,
                free.difference(a).difference(b).difference(c),
            );
            assert(free.difference(a).difference(b).difference(c).difference(d)
                =~= free.difference(used));
        },
        Plan::Path { subject, object, graph_name, .. } => {
            let (a, b, c) = (
                term_variables(subject),
                term_variables(object),
                graph_name_variables(graph_name),
            );
            lemma_term_typed(subject, true, s, g, types, free);
            let t1 = infer_term(subject, true, types);
            lemma_merge_restricted(s, g, a, b);
            lemma_term_typed(
                object,
                true,
                merge(s, g.restrict(a)),
                g,
                t1,
                free.difference(a),
            );
            let t2 = infer_term(object, true, t1);
            lemma_merge_restricted(s, g, a.union(b), c);
            lemma_graph_name_typed(
                graph_name,
                merge(s, g.restrict(a.union(b))),
                g,
                t2,
                free.difference(a).difference(b),
            );
            assert(free.difference(a).difference(b).difference(c) =~= free.difference(used));
        },
        Plan::Graph { graph_name } => {
            lemma_node_typed(graph_name, s, g, types, free);
        },
        _ => {},
    }
}

/// The columns of a row that are sure to have a value, among the first `count`.
spec fn sure_columns(variables: Seq<Seq<char>>, bindings: Seq<Row>, count: int) -> Set<Seq<char>> {
    Set::new(
        |v: Seq<char>|
            exists|c: int|
                0 <= c < count && #[trigger] variables[c] == v && is_full_column(bindings, c),
    )
}

/// A row of a table, joined with the input, has the inferred types.
proof fn lemma_row_typed(
    variables: Seq<Seq<char>>,
    bindings: Seq<Row>,
    r: int,
    count: int,
    x: Solution,
    input: Solution,
    types: Types,
    free: Set<Seq<char>>,
)
    requires
        0 <= r < bindings.len(),
        0 <= count <= variables.len(),
        row_solutions(variables, bindings[r], count).contains(x),
        compatible(input, x),
        distinct_variables(types),
        typed(input, types, free),
    ensures
        typed(
            merge(input, x),
            infer_table(variables, bindings, count, types),
            free.difference(sure_columns(variables, bindings, count)),
        ),
        distinct_variables(infer_table(variables, bindings, count, types)),
    decreases count,
{
    let row = bindings[r];
    let sure = sure_columns(variables, bindings, count);
    if count <= 0 {
        assert(x == Map::<Seq<char>, Term>::empty());
        assert(merge(input, x) =~= input);
        assert(free.difference(sure) =~= free);
    } else {
        let before = row_solutions(variables, row, count - 1);
        let fewer = sure_columns(variables, bindings, count - 1);
        let name = variables[count - 1];
        let t = column_type(bindings, count - 1);
        let less = free.difference(fewer);
        assert(cell(bindings[r], count - 1) == cell(row, count - 1));
        assert(free.difference(sure).subset_of(less)) by {
            assert forall|v: Seq<char>| #[trigger] fewer.contains(v) implies sure.contains(v) by {
                let c = choose|c: int|
                    0 <= c < count - 1 && #[trigger] variables[c] == v && is_full_column(
                        bindings,
                        c,
                    );
                assert(variables[c] == v);
            }
        }
        assert forall|v: Seq<char>| sure.contains(v) && !fewer.contains(v) implies v == name
            && is_full_column(bindings, count - 1) by {
            let c = choose|c: int|
                0 <= c < count && #[trigger] variables[c] == v && is_full_column(bindings, c);
            if c < count - 1 {
                assert(variables[c] == v);
                assert(fewer.contains(v));
            }
        }
        if count <= row.len() && row[count - 1] is Some {
            let term = row[count - 1]->0;
            let last: Solution = Map::empty().insert(name, constant(term));
            let (j, k) = lemma_joined_bags_contains(before, seq![last], x);
            let y = before[j];
            assert(before.contains(y));
            lemma_merge_assoc(input, y, last);
            lemma_merge_extends(y, last);
            assert(compatible(input, y)) by {
                assert forall|v: Seq<char>| #[trigger]
                    input.dom().contains(v) && #[trigger] y.dom().contains(v) implies input[v]
                    == y[v] by {
                    assert(x.dom().contains(v));
                }
            }
            lemma_row_typed(
                variables,
                bindings,
                r,
                count - 1,
                y,
                input,
                types,
                free,
            );
            assert(cell(bindings[r], count - 1) == Some(term));
            assert(of_type(t, Some(constant(term))));
            assert(compatible(merge(input, y), last));
            assert(last.dom().contains(name));
            lemma_typed_refine(
                merge(input, y),
                infer_table(variables, bindings, count - 1, types),
                name,
                t,
                Some(constant(term)),
                less,
                false,
            );
            assert(with_value(merge(input, y), name, Some(constant(term))) == merge(input, x));
            if sure.contains(name) {
                assert(free.difference(sure) =~= less.remove(name)) by {
                    assert forall|v: Seq<char>| free.difference(sure).contains(v) == less.remove(
                        name,
                    ).contains(v) by {
                        if less.remove(name).contains(v) && sure.contains(v) {
                            assert(!fewer.contains(v));
                        }
                    }
                }
            } else {
                assert(free.difference(sure) =~= less) by {
                    assert forall|v: Seq<char>| free.difference(sure).contains(v) == less.contains(
                        v,
                    ) by {
                        if less.contains(v) && sure.contains(v) {
                            assert(!fewer.contains(v));
                        }
                    }
                }
                lemma_typed_free(
                    merge(input, x),
                    infer_table(variables, bindings, count, types),
                    less.remove(name),
                    less,
                );
            }
        } else {
            assert(cell(bindings[r], count - 1) is None);
            assert(!is_full_column(bindings, count - 1));
            assert(row_solutions(variables, row, count) == before);
            lemma_row_typed(
                variables,
                bindings,
                r,
                count - 1,
                x,
                input,
                types,
                free,
            );
            assert(t.undef);
            assert(free.difference(sure) =~= less) by {
                assert forall|v: Seq<char>| free.difference(sure).contains(v) == less.contains(
                    v,
                ) by {
                    if less.contains(v) && sure.contains(v) {
                        assert(!fewer.contains(v));
                    }
                }
            }
            lemma_typed_refine(
                merge(input, x),
                infer_table(variables, bindings, count - 1, types),
                name,
                t,
                None,
                less,
                true,
            );
        }
    }
}

/// More free variables.
proof fn lemma_typed_free(
    s: Solution,
    types: Types,
    free: Set<Seq<char>>,
    freer: Set<Seq<char>>,
)
    requires
        typed(s, types, free),
        free.subset_of(freer),
    ensures
        typed(s, types, freer),
{
    assert forall|v: Seq<char>|
        allowed(#[trigger] type_of(types, v), lookup(s, v), freer.contains(v)) by {
        assert(allowed(type_of(types, v), lookup(s, v), free.contains(v)));
    }
}

/// What is known of the value of an expression.
pub open spec fn expected(
    expression: Expr,
    t: VariableType,
    value: Option<Term>,
    free: Set<Seq<char>>,
) -> bool {
    &&& value is None ==> t.undef
    &&& has_kind(expression) || expr_variables(expression).disjoint(free) ==> of_type(t, value)
}

/// The value of an expression is of the inferred type.
pub proof fn lemma_expr_typed(
    world: World,
    expression: Expr,
    s: Solution,
    types: Types,
    free: Set<Seq<char>>,
)
    requires
        regular(world),
        typed(s, types, free),
    ensures
        expected(
            expression,
            infer_expr(expression, types),
            value(world, expression, s),
            free,
        ),
    decreases expression,
{
    match expression {
        Expr::Variable(v) => {
            assert(allowed(type_of(types, v), lookup(s, v), free.contains(v)));
            assert(expr_variables(expression).contains(v));
        },
        Expr::SameTerm(left, right) => {
            lemma_expr_typed(world, *left, s, types, free);
            lemma_expr_typed(world, *right, s, types, free);
        },
        Expr::If(condition, then_case, else_case) => {
            lemma_expr_typed(world, *then_case, s, types, free);
            lemma_expr_typed(world, *else_case, s, types, free);
            let used = expr_variables(expression);
            assert(expr_variables(*then_case).subset_of(used));
            assert(expr_variables(*else_case).subset_of(used));
            if used.disjoint(free) {
                assert(expr_variables(*then_case).disjoint(free));
                assert(expr_variables(*else_case).disjoint(free));
            }
        },
        Expr::Coalesce(inner) => {
            assert forall|i: int| 0 <= i < inner.len() implies #[trigger] expected(
                inner[i],
                infer_expr(inner[i], types),
                value(world, inner[i], s),
                free,
            ) by {
                lemma_expr_typed(world, inner[i], s, types, free);
            }
            lemma_coalesce_typed(world, inner, inner.len() as int, s, types, free);
            assert(expr_variables(expression) == exprs_variables(inner));
            assert(has_kind(expression) == all_have_kind(inner));
        },
        Expr::FunctionCall(name, arguments) => {
            assert(values(world, arguments, s).len() == arguments.len());
            assert(of_type(
                infer_call(name, values(world, arguments, s).len()),
                (world.call)(name, values(world, arguments, s)),
            ));
        },
        _ => {},
    }
}

proof fn lemma_coalesce_typed(
    world: World,
    inner: Seq<Expr>,
    count: int,
    s: Solution,
    types: Types,
    free: Set<Seq<char>>,
)
    requires
        0 <= count <= inner.len(),
        forall|i: int|
            0 <= i < inner.len() ==> #[trigger] expected(
                inner[i],
                infer_expr(inner[i], types),
                value(world, inner[i], s),
                free,
            ),
    ensures
        ({
            let t = infer_coalesce(inner, count, types);
            let v = first_value(values(world, inner, s), count);
            &&& v is None ==> t.undef
            &&& all_have_kind(inner) || exprs_variables(inner).disjoint(free) ==> of_type(t, v)
        }),
    decreases count,
{
    if count > 0 {
        lemma_coalesce_typed(world, inner, count - 1, s, types, free);
        let last = inner[count - 1];
        assert(expected(
            inner[count - 1],
            infer_expr(inner[count - 1], types),
            value(world, inner[count - 1], s),
            free,
        ));
        assert(values(world, inner, s)[count - 1] == value(world, last, s));
        let before = infer_coalesce(inner, count - 1, types);
        let found = first_value(values(world, inner, s), count - 1);
        let next = infer_expr(last, types);
        assert(infer_coalesce(inner, count, types) == if before.undef {
            VariableType { undef: next.undef, ..before.or_spec(next) }
        } else {
            before
        });
        if exprs_variables(inner).disjoint(free) {
            assert(expr_variables(last).disjoint(free)) by {
                assert forall|v: Seq<char>| #[trigger] expr_variables(last).contains(v) implies
                    !free.contains(v) by {
                    assert(expr_variables(inner[count - 1]).contains(v));
                    assert(exprs_variables(inner).contains(v));
                }
            }
        }
    }
}

proof fn lemma_union_typed(
    plans: Seq<Plan>,
    k: int,
    t: Solution,
    types: Types,
    free: Set<Seq<char>>,
)
    requires
        0 <= k < plans.len(),
        distinct_variables(types),
        typed(t, infer(plans[k], types), free),
    ensures
        typed(t, infer_union(plans, types), free),
        distinct_variables(infer_union(plans, types)),
    decreases plans.len(),
{
    if plans.len() == 1 {
        lemma_infer_distinct(plans[0], types);
    } else {
        let shorter = plans.drop_last();
        let last = plans[plans.len() - 1];
        lemma_infer_distinct(last, types);
        if k < plans.len() - 1 {
            lemma_union_typed(shorter, k, t, types, free);
        } else {
            lemma_infer_distinct((Plan::Union { inner: shorter }), types);
        }
        let (a, b) = (infer_union(shorter, types), infer(last, types));
        lemma_unite_types(a, b);
        assert forall|v: Seq<char>|
            allowed(#[trigger] type_of(unite(a, b), v), lookup(t, v), free.contains(v)) by {
            if k < plans.len() - 1 {
                assert(allowed(type_of(a, v), lookup(t, v), free.contains(v)));
            } else {
                assert(allowed(type_of(b, v), lookup(t, v), free.contains(v)));
            }
        }
    }
}

/// Every solution of a plan has values of the inferred types.
#[verifier::spinoff_prover]
#[verifier::rlimit(40)]
pub proof fn lemma_typed(
    world: World,
    plan: Plan,
    input: Solution,
    types: Types,
    free: Set<Seq<char>>,
    outside: Set<Seq<char>>,
    t: Solution,
)
    requires
        regular(world),
        distinct_variables(types),
        typed(input, types, free),
        copied_variables(plan).disjoint(free),
        hygienic(plan, outside),
        input.dom().subset_of(outside),
        eval(world, plan, input).contains(t),
    ensures
        typed(t, infer(plan, types), free.difference(binds(plan))),
    decreases plan,
{
    let rest = free.difference(binds(plan));
    let copied = copied_variables(plan);
    match plan {
        Plan::QuadPattern { .. } | Plan::Path { .. } | Plan::Graph { .. } => {
            let atoms = (world.atom)(plan);
            let k = lemma_joined_origin(input, atoms, t);
            assert(is_lookup(plan));
            assert((world.atom)(plan)[k].dom() == plan_variables(plan));
            assert(match_fits(plan, (world.atom)(plan)[k]));
            lemma_match_typed(plan, input, atoms[k], types, free);
        },
        Plan::Service { .. } => {
            let atoms = (world.atom)(plan);
            let k = lemma_joined_origin(input, atoms, t);
            assert(typed(
                merge(input, (world.atom)(plan)[k]),
                infer(plan, types),
                free,
            ));
            assert(rest =~= free);
        },
        Plan::Values { variables, bindings } => {
            let rows = table(variables, bindings);
            let k = lemma_joined_origin(input, rows, t);
            assert(rows.contains(rows[k]));
            let r = lemma_table_origin(variables, bindings, rows[k]);
            let n = variables.len() as int;
            lemma_row_typed(variables, bindings, r, n, rows[k], input, types, free);
            assert(rest =~= free.difference(sure_columns(variables, bindings, n)));
        },
        Plan::Join { left, right, keys } => {
            let (s, x) = lemma_join_origin(world, *left, *right, input, keys, t);
            assert(copied_variables(*left).subset_of(copied));
            assert(copied_variables(*right).subset_of(copied));
            lemma_typed(world, *left, input, types, free, outside, s);
            lemma_typed(world, *right, input, types, free, outside, x);
            lemma_eval_binds(world, *left, input, s);
            lemma_eval_binds(world, *right, input, x);
            lemma_infer_distinct(*left, types);
            lemma_infer_distinct(*right, types);
            let (f1, f2) = (free.difference(binds(*left)), free.difference(binds(*right)));
            lemma_typed_merge(
                s,
                x,
                infer(*left, types),
                infer(*right, types),
                f1,
                f2,
            );
            assert(f1.intersect(f2) =~= rest);
        },
        Plan::Lateral { left, right } => {
            let s = lemma_lateral_origin(world, *left, *right, input, t);
            assert(copied_variables(*left).subset_of(copied));
            assert(copied_variables(*right).subset_of(copied));
            lemma_typed(world, *left, input, types, free, outside, s);
            lemma_infer_distinct(*left, types);
            lemma_eval_within(world, *left, input);
            let k = lemma_find(eval(world, *left, input), s);
            assert(within(s, input, plan_variables(*left)));
            let f1 = free.difference(binds(*left));
            lemma_typed(
                world,
                *right,
                s,
                infer(*left, types),
                f1,
                outside.union(plan_variables(*left)),
                t,
            );
            assert(f1.difference(binds(*right)) =~= rest);
        },
        Plan::LeftJoin { left, right, expression, keys } => {
            let (s, x) = lemma_left_join_origin(
                world,
                *left,
                *right,
                expression,
                input,
                keys,
                t,
            );
            assert(copied_variables(*left).subset_of(copied));
            assert(copied_variables(*right).subset_of(copied));
            lemma_typed(world, *left, input, types, free, outside, s);
            lemma_infer_distinct(*left, types);
            lemma_infer_distinct(*right, types);
            let (a, b) = (infer(*left, types), infer(*right, types));
            lemma_optional_types(b);
            lemma_intersect_types(a, b);
            lemma_intersect_types(a, optional(b));
            match x {
                Some(x) => {
                    lemma_typed(world, *right, input, types, free, outside, x);
                    lemma_eval_binds(world, *left, input, s);
                    lemma_eval_binds(world, *right, input, x);
                    let (f1, f2) = (free.difference(binds(*left)), free.difference(binds(*right)));
                    lemma_typed_merge(s, x, a, b, f1, f2);
                    assert forall|v: Seq<char>|
                        allowed(
                            #[trigger] type_of(intersect(a, optional(b)), v),
                            lookup(t, v),
                            rest.contains(v),
                        ) by {
                        assert(allowed(
                            type_of(intersect(a, b), v),
                            lookup(t, v),
                            f1.intersect(f2).contains(v),
                        ));
                    }
                },
                None => {
                    assert forall|v: Seq<char>|
                        allowed(
                            #[trigger] type_of(intersect(a, optional(b)), v),
                            lookup(t, v),
                            rest.contains(v),
                        ) by {
                        assert(allowed(type_of(a, v), lookup(t, v), rest.contains(v)));
                    }
                },
            }
        },
        Plan::Minus { left, right, .. } => {
            let (l, r) = (eval(world, *left, input), eval(world, *right, input));
            lemma_keep_contains(l, remains(r, input), t);
            assert(copied_variables(*left).subset_of(copied));
            lemma_typed(world, *left, input, types, free, outside, t);
        },
        Plan::Filter { inner, expression } => {
            lemma_keep_contains(eval(world, *inner, input), condition(world, expression), t);
            assert(copied_variables(*inner).subset_of(copied));
            lemma_typed(world, *inner, input, types, free, outside, t);
        },
        Plan::Extend { inner, variable, expression } => {
            let s = lemma_extend_origin(world, *inner, variable, expression, input, t);
            assert(copied_variables(*inner).subset_of(copied));
            lemma_typed(world, *inner, input, types, free, outside, s);
            lemma_infer_distinct(*inner, types);
            let a = infer(*inner, types);
            lemma_expr_typed(world, expression, s, a, rest);
            let y = value(world, expression, s);
            if !has_kind(expression) {
                assert forall|v: Seq<char>| #[trigger]
                    expr_variables(expression).contains(v) implies !rest.contains(v) by {
                    if rest.contains(v) {
                        assert(plan_paths(plan).contains((Trace::Copied(v), false)));
                        assert(copied.contains(v));
                    }
                }
            }
            if let Some(term) = y {
                let cell: Solution = Map::empty().insert(variable, term);
                assert(cell.dom().contains(variable));
            }
            lemma_typed_refine(
                s,
                a,
                variable,
                infer_expr(expression, a),
                y,
                rest,
                y is None,
            );
            if y is Some {
                lemma_typed_free(
                    t,
                    refine(a, variable, infer_expr(expression, a)),
                    rest.remove(variable),
                    rest,
                );
            }
        },
        Plan::Union { inner } => {
            let k = lemma_union_origin(world, inner, input, t);
            assert(all_hygienic(inner, outside));
            assert forall|v: Seq<char>| #[trigger]
                copied_variables(inner[k]).contains(v) implies copied.contains(v) by {
                assert(all_paths(inner).contains((Trace::Copied(v), false)));
            }
            lemma_typed(world, inner[k], input, types, free, outside, t);
            lemma_union_typed(
                inner,
                k,
                t,
                types,
                free.difference(binds(inner[k])),
            );
            assert(binds(plan) == all_bind(inner));
            lemma_typed_free(
                t,
                infer(plan, types),
                free.difference(binds(inner[k])),
                rest,
            );
        },
        Plan::OrderBy { inner, .. } => {
            assert(copied_variables(*inner) =~= copied);
            lemma_typed(world, *inner, input, types, free, outside, t);
        },
        Plan::Distinct { inner } | Plan::Reduced { inner } => {
            lemma_once(eval(world, *inner, input));
            assert(copied_variables(*inner) =~= copied);
            lemma_typed(world, *inner, input, types, free, outside, t);
        },
        Plan::Slice { inner, start, length } => {
            lemma_slice_origin(world, *inner, start, length, input, t);
            assert(copied_variables(*inner) =~= copied);
            lemma_typed(world, *inner, input, types, free, outside, t);
        },
        Plan::Project { inner, variables } => {
            let local = hidden(*inner, variables);
            assert(hide_variables(input, local) =~= input);
            let s = lemma_project_origin(world, *inner, variables, input, t);
            assert(copied_variables(*inner) =~= copied);
            lemma_typed(world, *inner, input, types, free, outside, s);
            lemma_infer_distinct(*inner, types);
            lemma_projected_types(types, infer(*inner, types), variables);
            lemma_eval_within(world, *inner, input);
            let k = lemma_find(eval(world, *inner, input), s);
            assert(within(s, input, plan_variables(*inner)));
            assert forall|v: Seq<char>|
                allowed(
                    #[trigger] type_of(infer(plan, types), v),
                    lookup(t, v),
                    rest.contains(v),
                ) by {
                if variables.contains(v) {
                    assert(lookup(t, v) == lookup(s, v));
                    assert(allowed(
                        type_of(infer(*inner, types), v),
                        lookup(s, v),
                        free.difference(binds(*inner)).contains(v),
                    ));
                } else {
                    assert(lookup(t, v) == lookup(input, v));
                    assert(allowed(
                        type_of(types, v),
                        lookup(input, v),
                        free.contains(v),
                    ));
                }
            }
        },
        Plan::Group { inner, variables, aggregates } => {
            let local = hidden(*inner, variables);
            assert(hide_variables(input, local) =~= input);
            let (g, s) = lemma_group_origin(world, *inner, variables, aggregates, input, t);
            assert(copied_variables(*inner) =~= copied);
            lemma_infer_distinct(*inner, types);
            lemma_projected_types(types, infer(*inner, types), variables);
            lemma_aggregate_types(aggregates, projected(types, infer(*inner, types), variables));
            if variables.len() > 0 {
                lemma_typed(world, *inner, input, types, free, outside, s);
                lemma_eval_within(world, *inner, input);
                let k = lemma_find(eval(world, *inner, input), s);
                assert(within(s, input, plan_variables(*inner)));
            }
            assert forall|v: Seq<char>|
                allowed(
                    #[trigger] type_of(infer(plan, types), v),
                    lookup(t, v),
                    rest.contains(v),
                ) by {
                if aggregate_names(aggregates).contains(v) {
                } else if variables.contains(v) {
                    assert(lookup(g, v) == lookup(s, v));
                    assert(lookup(t, v) == lookup(s, v));
                    assert(allowed(
                        type_of(infer(*inner, types), v),
                        lookup(s, v),
                        free.difference(binds(*inner)).contains(v),
                    ));
                } else {
                    assert(!g.dom().contains(v));
                    assert(lookup(t, v) == lookup(input, v));
                    assert(allowed(
                        type_of(types, v),
                        lookup(input, v),
                        free.contains(v),
                    ));
                }
            }
        },
    }
}

/// Type soundness: where the variables of the input have values of given types,
/// those of every solution have values of the inferred types.
pub proof fn law_types_are_sound(
    world: World,
    plan: Plan,
    input: Solution,
    types: Types,
    outside: Set<Seq<char>>,
    t: Solution,
)
    requires
        regular(world),
        distinct_variables(types),
        has_types(input, types),
        hygienic(plan, outside),
        input.dom().subset_of(outside),
        eval(world, plan, input).contains(t),
    ensures
        has_types(t, infer(plan, types)),
{
    lemma_typed(world, plan, input, types, Set::empty(), outside, t);
    assert(Set::<Seq<char>>::empty().difference(binds(plan)) =~= Set::empty());
}

} // verus!
