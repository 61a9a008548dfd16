//! Plans that fit a loop give the join when they are evaluated in a loop.

use vstd::prelude::*;

use crate::algebra::{is_atom, Expr, Plan, Row};
use crate::bags::{
    lemma_gather_concat, lemma_gather_order, lemma_gather_single, lemma_keep_contains, lemma_once,
    lemma_same_concat, lemma_same_items, once, same,
};
use crate::depends::{lemma_same_lookups, lemma_value_depends};
use crate::eval_basics::{lemma_contains_index, lemma_eval_within, lemma_find, within};
use crate::factoring::{lemma_factors_scoped, other_variables};
use crate::factors::{join_factors, lemma_factors_decrease};
use crate::firm::ignored;
use crate::for_loop::{
    all_exprs_fit, all_fit, all_get_ordered, everything_remains, expr_fits, factor_fits, fits,
    fitting_keys, is_rebound, nothing_remains, rebinds,
};
use crate::greedy::{least, lemma_least};
use crate::joins::{eval_join, lemma_join_factors};
use crate::limits::Limits;
use crate::lookups::correlation_threshold;
use crate::loops::{
    follows, gained, lemma_follow_apart, lemma_follow_extend, lemma_follow_filter,
    lemma_follow_group, lemma_follow_join, lemma_follow_lateral, lemma_follow_left_join,
    lemma_follow_minus, lemma_follow_once, lemma_follow_shown, lemma_joined_again,
};
use crate::mute::{lemma_mute, silent};
use crate::origins::{
    lemma_extend_origin, lemma_group_origin, lemma_join_origin, lemma_joined_origin,
    lemma_lateral_origin, lemma_left_join_origin, lemma_project_origin, lemma_slice_origin,
    lemma_union_origin,
};
use crate::plan_laws::lemma_eval_extends;
use crate::scope::{all_hygienic, binds, full_columns, hygienic, is_full_column, lemma_eval_binds};
use crate::scoping::{
    all_exists_covered, all_loop, all_scoped, all_steady, any_contains_exists, contains_exists,
    covers, exists_covered, exposed, lemma_scoped_hygienic, loops, loose_variables, scoped, steady,
    waits, Names,
};
use crate::semantics::{
    allowed, condition, eval, eval_all, first_value, hidden, holds, low, of_type, regular, remains,
    table, truths, typed, value, values, World,
};
use crate::solutions::{
    agree, compatible, extends, hide_variables, joined_with, lemma_compatible_sym,
    lemma_extends_merge, lemma_extends_trans, lemma_joined_with_base, lemma_merge_extends, lookup,
    merge, merged, Solution,
};
use crate::term::{NodePatternView, TermPatternView};
use crate::type_inference::{
    column_type, distinct_variables, infer, infer_call, infer_coalesce, infer_expr, infer_node,
    infer_table, infer_term, infer_union, intersect, lemma_position, optional, position, projected,
    type_of, unite, Types, VariableType,
};
use crate::type_laws::{
    lemma_aggregate_types, lemma_infer_distinct, lemma_intersect_types, lemma_optional_types,
    lemma_projected_types, lemma_refine_types, lemma_unite_types,
};
use crate::typing::lemma_typed;
use crate::variables::{
    aggregate_names, expr_variables, exprs_variables, node_variables, plan_variables,
    term_variables,
};

verus! {

/// What only one of two extensions of a solution binds.
pub proof fn lemma_merge_names(more: Solution, less: Solution, x: Solution)
    requires
        extends(more, less),
        extends(x, less),
        compatible(more, x),
    ensures
        extends(merge(more, x), x),
        gained(x, merge(more, x)).subset_of(gained(less, more)),
{
    lemma_merge_extends(more, x);
}

/// Solutions that differ only in variables that an expression does not miss.
proof fn lemma_covered_value(
    world: World,
    e: Expr,
    x: Solution,
    m: Solution,
    late: Names,
    sure: Names,
)
    requires
        regular(world),
        extends(m, x),
        gained(x, m).subset_of(late),
        sure.subset_of(x.dom()),
        covers(expr_variables(e), late, sure),
    ensures
        value(world, e, x) == value(world, e, m),
        holds(world, e, x) == holds(world, e, m),
{
    assert(agree(x, m, expr_variables(e))) by {
        assert forall|v: Seq<char>| #[trigger] expr_variables(e).contains(v) implies lookup(x, v)
            == lookup(m, v) by {
            if m.dom().contains(v) && !x.dom().contains(v) {
                assert(gained(x, m).contains(v));
                assert(expr_variables(e).intersect(late).contains(v));
            }
        }
    }
    lemma_value_depends(world, e, x, m);
}

/// Evaluating a lookup or table where more is known.
proof fn lemma_follow_lookup(
    world: World,
    plan: Plan,
    less: Solution,
    more: Solution,
    matches: Seq<Solution>,
)
    requires
        extends(more, less),
        eval(world, plan, less) == joined_with(less, matches),
        eval(world, plan, more) == joined_with(more, matches),
    ensures
        follows(world, plan, less, more),
{
    lemma_joined_again(more, less, matches);
}

/// Where nothing more is known, nothing changes.
pub proof fn lemma_follow_same(world: World, plan: Plan, input: Solution)
    requires
        regular(world),
    ensures
        follows(world, plan, input, input),
{
    lemma_eval_extends(world, plan, input);
    lemma_joined_with_base(input, eval(world, plan, input));
}

pub proof fn lemma_follow_union(
    world: World,
    plans: Seq<Plan>,
    less: Solution,
    more: Solution,
)
    requires
        forall|i: int| 0 <= i < plans.len() ==> follows(world, #[trigger] plans[i], less, more),
    ensures
        same(eval_all(world, plans, more), joined_with(more, eval_all(world, plans, less))),
    decreases plans.len(),
{
    if plans.len() == 0 {
        assert(eval_all(world, plans, less) =~= seq![]);
        assert(eval_all(world, plans, more) =~= joined_with(more, eval_all(world, plans, less)));
    } else {
        let shorter = plans.drop_last();
        let n = plans.len() - 1;
        assert forall|i: int| 0 <= i < shorter.len() implies follows(
            world,
            #[trigger] shorter[i],
            less,
            more,
        ) by {
            assert(follows(world, plans[i], less, more));
        }
        lemma_follow_union(world, shorter, less, more);
        assert(follows(world, plans[n], less, more));
        let (a, b) = (eval_all(world, shorter, less), eval(world, plans[n], less));
        lemma_gather_concat(a, b, |other: Solution| merged(more, other));
        lemma_same_concat(
            eval_all(world, shorter, more),
            eval(world, plans[n], more),
            joined_with(more, a),
            joined_with(more, b),
        );
    }
}

/// A steady plan gives the join when it is evaluated where more is known.
#[verifier::spinoff_prover]
#[verifier::rlimit(40)]
pub proof fn lemma_steady_follows(
    world: World,
    plan: Plan,
    late: Names,
    sure: Names,
    less: Solution,
    more: Solution,
)
    requires
        regular(world),
        steady(plan, late, sure),
        sure.subset_of(less.dom()),
        extends(more, less),
        gained(less, more).subset_of(late),
    ensures
        follows(world, plan, less, more),
    decreases plan,
{
    match plan {
        Plan::QuadPattern { .. }
        | Plan::Path { .. }
        | Plan::Graph { .. }
        | Plan::Service { .. } => {
            lemma_follow_lookup(world, plan, less, more, (world.atom)(plan));
        },
        Plan::Values { variables, bindings } => {
            lemma_follow_lookup(world, plan, less, more, table(variables, bindings));
        },
        Plan::Join { left, right, .. } => {
            lemma_steady_follows(world, *left, late, sure, less, more);
            lemma_steady_follows(world, *right, late, sure, less, more);
            lemma_follow_join(
                more,
                eval(world, *left, more),
                eval(world, *right, more),
                eval(world, *left, less),
                eval(world, *right, less),
            );
        },
        Plan::Lateral { left, right } => {
            lemma_steady_follows(world, *left, late, sure, less, more);
            let l = eval(world, *left, less);
            lemma_eval_extends(world, *left, less);
            assert forall|i: int| 0 <= i < l.len() && compatible(more, #[trigger] l[i]) implies
                follows(world, *right, l[i], merge(more, l[i])) by {
                lemma_contains_index(l, i);
                assert(extends(l[i], less));
                lemma_merge_names(more, less, l[i]);
                lemma_eval_binds(world, *left, less, l[i]);
                lemma_steady_follows(
                    world,
                    *right,
                    late,
                    sure.union(binds(*left)),
                    l[i],
                    merge(more, l[i]),
                );
            }
            lemma_follow_lateral(world, more, eval(world, *left, more), l, *right);
        },
        Plan::LeftJoin { left, right, expression, .. } => {
            lemma_steady_follows(world, *left, late, sure, less, more);
            lemma_steady_follows(world, *right, late, sure, less, more);
            let (l, r) = (eval(world, *left, less), eval(world, *right, less));
            lemma_eval_extends(world, *left, less);
            lemma_eval_extends(world, *right, less);
            lemma_eval_within(world, *right, less);
            let (b, c) = (binds(*left), binds(*right));
            assert forall|i: int, k: int|
                0 <= i < l.len() && 0 <= k < r.len() && compatible(more, l[i]) && compatible(
                    l[i],
                    r[k],
                ) implies compatible(more, #[trigger] merge(l[i], r[k])) && holds(
                world,
                expression,
                merge(more, merge(l[i], r[k])),
            ) == holds(world, expression, merge(l[i], r[k])) by {
                let (s, t) = (l[i], r[k]);
                let x = merge(s, t);
                lemma_contains_index(l, i);
                lemma_contains_index(r, k);
                assert(extends(s, less) && extends(t, less));
                assert(within(t, less, plan_variables(*right)));
                lemma_eval_binds(world, *left, less, s);
                lemma_eval_binds(world, *right, less, t);
                lemma_merge_extends(s, t);
                lemma_compatible_known(
                    more,
                    less,
                    s,
                    t,
                    plan_variables(*right),
                    late,
                    sure.union(b),
                );
                lemma_extends_trans(x, s, less);
                lemma_merge_names(more, less, x);
                lemma_covered_value(
                    world,
                    expression,
                    x,
                    merge(more, x),
                    late,
                    sure.union(b).union(c),
                );
            }
            lemma_follow_left_join(
                world,
                more,
                less,
                eval(world, *left, more),
                l,
                eval(world, *right, more),
                r,
                expression,
            );
        },
        Plan::Filter { inner, expression } => {
            lemma_steady_follows(world, *inner, late, sure, less, more);
            let x = eval(world, *inner, less);
            lemma_eval_extends(world, *inner, less);
            assert forall|i: int| 0 <= i < x.len() && compatible(more, #[trigger] x[i]) implies
                holds(world, expression, merge(more, x[i])) == holds(world, expression, x[i]) by {
                lemma_contains_index(x, i);
                assert(extends(x[i], less));
                lemma_merge_names(more, less, x[i]);
                lemma_eval_binds(world, *inner, less, x[i]);
                lemma_covered_value(
                    world,
                    expression,
                    x[i],
                    merge(more, x[i]),
                    late,
                    sure.union(binds(*inner)),
                );
            }
            lemma_follow_filter(world, more, eval(world, *inner, more), x, expression);
        },
        Plan::Extend { inner, variable, expression } => {
            lemma_steady_follows(world, *inner, late, sure, less, more);
            let x = eval(world, *inner, less);
            lemma_eval_extends(world, *inner, less);
            assert forall|i: int| 0 <= i < x.len() && compatible(more, #[trigger] x[i]) implies
                value(world, expression, merge(more, x[i])) == value(world, expression, x[i]) by {
                lemma_contains_index(x, i);
                assert(extends(x[i], less));
                lemma_merge_names(more, less, x[i]);
                lemma_eval_binds(world, *inner, less, x[i]);
                lemma_covered_value(
                    world,
                    expression,
                    x[i],
                    merge(more, x[i]),
                    late,
                    sure.union(binds(*inner)),
                );
            }
            lemma_follow_extend(world, more, eval(world, *inner, more), x, variable, expression);
        },
        Plan::Union { inner } => {
            assert(all_steady(inner, late, sure));
            assert forall|i: int| 0 <= i < inner.len() implies follows(
                world,
                #[trigger] inner[i],
                less,
                more,
            ) by {
                lemma_steady_follows(world, inner[i], late, sure, less, more);
            }
            lemma_follow_union(world, inner, less, more);
        },
        Plan::OrderBy { inner, .. } => {
            lemma_steady_follows(world, *inner, late, sure, less, more);
        },
        Plan::Distinct { inner } | Plan::Reduced { inner } => {
            lemma_steady_follows(world, *inner, late, sure, less, more);
            lemma_steady_once(world, *inner, late, sure, less, more);
        },
        Plan::Project { inner, variables } => {
            let local = hidden(*inner, variables);
            let (a, b) = (hide_variables(less, local), hide_variables(more, local));
            let (part, certain) = (late.difference(local), sure.difference(local));
            lemma_steady_follows(world, *inner, part, certain, a, b);
            lemma_eval_extends(world, *inner, a);
            lemma_follow_shown(
                more,
                less,
                local,
                eval(world, *inner, b),
                eval(world, *inner, a),
            );
        },
        Plan::Minus { left, right, keys } => {
            lemma_steady_follows(world, *left, late, sure, less, more);
            lemma_follow_minus(world, *left, *right, keys, less, more);
        },
        Plan::Slice { .. } => {
            lemma_follow_apart(world, plan, less, more);
        },
        Plan::Group { inner, variables, aggregates } => {
            if plan_variables(plan).disjoint(late) {
                lemma_follow_apart(world, plan, less, more);
            } else {
                let local = hidden(*inner, variables);
                let (a, b) = (hide_variables(less, local), hide_variables(more, local));
                let (part, certain) = (late.difference(local), sure.difference(local));
                lemma_steady_follows(world, *inner, part, certain, a, b);
                assert forall|t: Solution, v: Seq<char>|
                    eval(world, *inner, a).contains(t) && #[trigger] gained(less, more).contains(v)
                        && variables.contains(v) implies #[trigger] t.dom().contains(v) by {
                    lemma_eval_binds(world, *inner, a, t);
                    assert(variables.to_set().intersect(late).contains(v));
                    assert(!sure.contains(v));
                }
                lemma_follow_group(world, *inner, variables, aggregates, less, more);
            }
        },
    }
}

/// The distinct solutions of a plan, where more is known.
proof fn lemma_steady_once(
    world: World,
    inner: Plan,
    late: Names,
    sure: Names,
    less: Solution,
    more: Solution,
)
    requires
        regular(world),
        follows(world, inner, less, more),
        covers(plan_variables(inner), late, sure.union(binds(inner))),
        sure.subset_of(less.dom()),
        extends(more, less),
        gained(less, more).subset_of(late),
    ensures
        same(
            once(eval(world, inner, more)),
            joined_with(more, once(eval(world, inner, less))),
        ),
{
    let x = eval(world, inner, less);
    lemma_eval_within(world, inner, less);
    lemma_eval_extends(world, inner, less);
    assert forall|i: int, j: int|
        0 <= i < x.len() && 0 <= j < x.len() && compatible(more, x[i]) && compatible(more, x[j])
            && #[trigger] merge(more, x[i]) == #[trigger] merge(more, x[j]) implies x[i]
        == x[j] by {
        let (s, t) = (x[i], x[j]);
        lemma_contains_index(x, i);
        lemma_contains_index(x, j);
        lemma_eval_binds(world, inner, less, s);
        lemma_eval_binds(world, inner, less, t);
        assert(extends(s, less) && extends(t, less));
        assert(within(s, less, plan_variables(inner)));
        assert(within(t, less, plan_variables(inner)));
        lemma_merge_extends(more, s);
        lemma_merge_extends(more, t);
        assert forall|v: Seq<char>| lookup(s, v) == #[trigger] lookup(t, v) by {
            if more.dom().contains(v) && !less.dom().contains(v) {
                assert(gained(less, more).contains(v));
                if plan_variables(inner).contains(v) {
                    assert(plan_variables(inner).intersect(late).contains(v));
                    assert(s.dom().contains(v) && t.dom().contains(v));
                }
            } else if !less.dom().contains(v) {
                assert(lookup(merge(more, s), v) == lookup(s, v));
                assert(lookup(merge(more, t), v) == lookup(t, v));
            }
        }
        lemma_same_lookups(s, t);
    }
    lemma_follow_once(more, eval(world, inner, more), x);
}

/// A match of a solution is compatible with what is known, where all that both
/// bind has a value in the solution.
proof fn lemma_compatible_known(
    more: Solution,
    less: Solution,
    s: Solution,
    t: Solution,
    used: Names,
    late: Names,
    sure: Names,
)
    requires
        extends(more, less),
        extends(s, less),
        extends(t, less),
        compatible(more, s),
        compatible(s, t),
        gained(less, more).subset_of(late),
        within(t, less, used),
        covers(used, late, sure),
        sure.subset_of(s.dom()),
    ensures
        compatible(more, merge(s, t)),
{
    let x = merge(s, t);
    assert forall|v: Seq<char>| #[trigger]
        more.dom().contains(v) && #[trigger] x.dom().contains(v) implies more[v] == x[v] by {
        if s.dom().contains(v) {
            if t.dom().contains(v) {
                assert(s[v] == t[v]);
            }
        } else {
            assert(t.dom().contains(v));
            assert(!less.dom().contains(v));
            assert(gained(less, more).contains(v));
            assert(used.intersect(late).contains(v));
        }
    }
}

/// An expression without a value may have none.
pub proof fn lemma_low_expr(world: World, e: Expr, s: Solution, types: Types)
    requires
        regular(world),
        low(s, types),
    ensures
        value(world, e, s) is None ==> infer_expr(e, types).undef,
    decreases e,
{
    match e {
        Expr::Variable(v) => {
            assert(!s.dom().contains(v) ==> type_of(types, v).undef);
        },
        Expr::SameTerm(left, right) => {
            lemma_low_expr(world, *left, s, types);
            lemma_low_expr(world, *right, s, types);
        },
        Expr::Coalesce(inner) => {
            assert forall|i: int|
                0 <= i < inner.len() && value(world, #[trigger] inner[i], s) is None implies
                infer_expr(inner[i], types).undef by {
                lemma_low_expr(world, inner[i], s, types);
            }
            lemma_low_coalesce(world, inner, inner.len() as int, s, types);
        },
        Expr::FunctionCall(name, arguments) => {
            assert(values(world, arguments, s).len() == arguments.len());
            assert(of_type(
                infer_call(name, values(world, arguments, s).len()),
                (world.call)(name, values(world, arguments, s)),
            ));
        },
        _ => {},
    }
}

proof fn lemma_low_coalesce(
    world: World,
    inner: Seq<Expr>,
    count: int,
    s: Solution,
    types: Types,
)
    requires
        0 <= count <= inner.len(),
        forall|i: int|
            0 <= i < inner.len() ==> (value(world, #[trigger] inner[i], s) is None ==> infer_expr(
                inner[i],
                types,
            ).undef),
    ensures
        first_value(values(world, inner, s), count) is None
            ==> infer_coalesce(inner, count, types).undef,
    decreases count,
{
    if count > 0 {
        lemma_low_coalesce(world, inner, count - 1, s, types);
        assert(values(world, inner, s)[count - 1] == value(world, inner[count - 1], s));
    }
}

/// A pattern says nothing of other variables.
proof fn lemma_term_others(
    pattern: TermPatternView,
    is_object: bool,
    types: Types,
    v: Seq<char>,
)
    requires
        distinct_variables(types),
        !term_variables(pattern).contains(v),
    ensures
        distinct_variables(infer_term(pattern, is_object, types)),
        type_of(infer_term(pattern, is_object, types), v) == type_of(
            types,
            v,
        ),
    decreases pattern,
{
    match pattern {
        TermPatternView::Variable(x) => {
            lemma_refine_types(types, x, VariableType::of_term());
            lemma_refine_types(types, x, VariableType::of_subject());
        },
        TermPatternView::Triple { subject, predicate, object } => {
            lemma_term_others(*subject, false, types, v);
            let a = infer_term(*subject, false, types);
            lemma_node_others(predicate, a, v);
            let b = infer_node(predicate, a);
            lemma_term_others(*object, true, b, v);
        },
        _ => {},
    }
}

proof fn lemma_node_others(
    pattern: NodePatternView,
    types: Types,
    v: Seq<char>,
)
    requires
        distinct_variables(types),
        !node_variables(pattern).contains(v),
    ensures
        distinct_variables(infer_node(pattern, types)),
        type_of(infer_node(pattern, types), v) == type_of(types, v),
{
    if let NodePatternView::Variable(x) = pattern {
        lemma_refine_types(types, x, VariableType::of_named_node());
    }
}

proof fn lemma_atom_others(plan: Plan, types: Types, v: Seq<char>)
    requires
        is_atom(plan),
        distinct_variables(types),
        !plan_variables(plan).contains(v),
    ensures
        type_of(infer(plan, types), v) == type_of(types, v),
{
    match plan {
        Plan::QuadPattern { subject, predicate, object, graph_name } => {
            lemma_term_others(subject, false, types, v);
            let a = infer_term(subject, false, types);
            lemma_node_others(predicate, a, v);
            let b = infer_node(predicate, a);
            lemma_term_others(object, true, b, v);
            let c = infer_term(object, true, b);
            if let Some(name) = graph_name {
                lemma_node_others(name, c, v);
            }
        },
        Plan::Path { subject, object, graph_name, .. } => {
            lemma_term_others(subject, true, types, v);
            let a = infer_term(subject, true, types);
            lemma_term_others(object, true, a, v);
            let c = infer_term(object, true, a);
            if let Some(name) = graph_name {
                lemma_node_others(name, c, v);
            }
        },
        Plan::Graph { graph_name } => {
            lemma_node_others(graph_name, types, v);
        },
        _ => {},
    }
}

/// A column that some row leaves without a value.
proof fn lemma_table_open(
    variables: Seq<Seq<char>>,
    bindings: Seq<Row>,
    columns: int,
    types: Types,
    v: Seq<char>,
)
    requires
        distinct_variables(types),
        type_of(types, v).undef,
        0 <= columns <= variables.len(),
        forall|c: int|
            0 <= c < columns && #[trigger] variables[c] == v
                ==> !is_full_column(bindings, c),
    ensures
        distinct_variables(
            infer_table(variables, bindings, columns, types),
        ),
        type_of(
            infer_table(variables, bindings, columns, types),
            v,
        ).undef,
    decreases columns,
{
    if columns > 0 {
        lemma_table_open(variables, bindings, columns - 1, types, v);
        let before = infer_table(variables, bindings, columns - 1, types);
        let t = column_type(bindings, columns - 1);
        lemma_refine_types(before, variables[columns - 1], t);
        if variables[columns - 1] == v {
            assert(!is_full_column(bindings, columns - 1));
            let r = choose|r: int|
                0 <= r < bindings.len() && crate::type_inference::cell(
                    #[trigger] bindings[r],
                    columns - 1,
                ) is None;
            assert(crate::type_inference::cell(bindings[r], columns - 1) is None);
            assert(t.undef);
        }
    }
}

proof fn lemma_union_low(plans: Seq<Plan>, k: int, t: Solution, types: Types)
    requires
        0 <= k < plans.len(),
        distinct_variables(types),
        low(t, infer(plans[k], types)),
    ensures
        low(t, infer_union(plans, types)),
    decreases plans.len(),
{
    if plans.len() > 1 {
        let shorter = plans.drop_last();
        let last = plans[plans.len() - 1];
        lemma_infer_distinct(last, types);
        lemma_infer_distinct((Plan::Union { inner: shorter }), types);
        let a = infer_union(shorter, types);
        let b = infer(last, types);
        lemma_unite_types(a, b);
        if k < plans.len() - 1 {
            lemma_union_low(shorter, k, t, types);
        }
        let u = unite(a, b);
        assert forall|v: Seq<char>| !t.dom().contains(v) implies (#[trigger] type_of(
            u,
            v,
        )).undef by {
            if k < plans.len() - 1 {
                assert(type_of(a, v).undef);
            } else {
                assert(type_of(b, v).undef);
            }
        }
    }
}

/// The variables that a solution of a plan leaves without a value may have none.
#[verifier::spinoff_prover]
pub proof fn lemma_low(
    world: World,
    plan: Plan,
    input: Solution,
    types: Types,
    outside: Names,
    t: Solution,
)
    requires
        regular(world),
        loops(plan) || hygienic(plan, outside) && input.dom().subset_of(outside),
        distinct_variables(types),
        low(input, types),
        eval(world, plan, input).contains(t),
    ensures
        low(t, infer(plan, types)),
    decreases plan,
{
    lemma_infer_distinct(plan, types);
    lemma_eval_extends(world, plan, input);
    let n = lemma_find(eval(world, plan, input), t);
    assert(extends(t, input));
    match plan {
        Plan::QuadPattern { .. } | Plan::Path { .. } | Plan::Graph { .. } => {
            lemma_eval_binds(world, plan, input, t);
            assert forall|v: Seq<char>| !t.dom().contains(v) implies (#[trigger] type_of(
                infer(plan, types),
                v,
            )).undef by {
                assert(!binds(plan).contains(v));
                lemma_atom_others(plan, types, v);
            }
        },
        Plan::Service { .. } => {
            let atoms = (world.atom)(plan);
            let k = lemma_joined_origin(input, atoms, t);
            assert(low(merge(input, (world.atom)(plan)[k]), infer(plan, types)));
        },
        Plan::Values { variables, bindings } => {
            lemma_eval_binds(world, plan, input, t);
            assert forall|v: Seq<char>| !t.dom().contains(v) implies (#[trigger] type_of(
                infer(plan, types),
                v,
            )).undef by {
                assert(!binds(plan).contains(v));
                assert forall|c: int|
                    0 <= c < variables.len() && #[trigger] variables[c] == v implies
                    !is_full_column(bindings, c) by {
                    assert(!full_columns(variables, bindings).contains(v));
                }
                assert(type_of(types, v).undef);
                lemma_table_open(variables, bindings, variables.len() as int, types, v);
            }
        },
        Plan::Join { left, right, keys } => {
            let (s, x) = lemma_join_origin(world, *left, *right, input, keys, t);
            lemma_low(world, *left, input, types, outside, s);
            lemma_low(world, *right, input, types, outside, x);
            lemma_merge_extends(s, x);
            lemma_infer_distinct(*left, types);
            lemma_infer_distinct(*right, types);
            let (a, b) = (infer(*left, types), infer(*right, types));
            lemma_intersect_types(a, b);
            assert forall|v: Seq<char>| !t.dom().contains(v) implies (#[trigger] type_of(
                intersect(a, b),
                v,
            )).undef by {
                assert(type_of(a, v).undef && type_of(b, v).undef);
            }
        },
        Plan::Lateral { left, right } => {
            let s = lemma_lateral_origin(world, *left, *right, input, t);
            lemma_low(world, *left, input, types, outside, s);
            lemma_infer_distinct(*left, types);
            lemma_eval_within(world, *left, input);
            let k = lemma_find(eval(world, *left, input), s);
            assert(within(s, input, plan_variables(*left)));
            assert(input.dom().subset_of(outside) ==> s.dom().subset_of(
                outside.union(plan_variables(*left)),
            )) by {
                if input.dom().subset_of(outside) {
                    assert forall|v: Seq<char>| #[trigger] s.dom().contains(v) implies outside.union(
                        plan_variables(*left),
                    ).contains(v) by {
                        if !plan_variables(*left).contains(v) {
                            assert(lookup(s, v) == lookup(input, v));
                        }
                    }
                }
            }
            lemma_low(
                world,
                *right,
                s,
                infer(*left, types),
                outside.union(plan_variables(*left)),
                t,
            );
        },
        Plan::LeftJoin { left, right, expression, keys } => {
            let (s, x) = lemma_left_join_origin(
                world,
                *left,
                *right,
                expression,
                input,
                keys,
                t,
            );
            lemma_low(world, *left, input, types, outside, s);
            if let Some(y) = x {
                lemma_merge_extends(s, y);
            }
            lemma_infer_distinct(*left, types);
            lemma_infer_distinct(*right, types);
            let (a, b) = (infer(*left, types), infer(*right, types));
            lemma_optional_types(b);
            let o = optional(b);
            lemma_intersect_types(a, o);
            assert forall|v: Seq<char>| !t.dom().contains(v) implies (#[trigger] type_of(
                intersect(a, o),
                v,
            )).undef by {
                assert(!s.dom().contains(v));
                assert(type_of(a, v).undef);
                assert(type_of(o, v).undef);
            }
        },
        Plan::Filter { inner, expression } => {
            lemma_keep_contains(eval(world, *inner, input), condition(world, expression), t);
            lemma_low(world, *inner, input, types, outside, t);
        },
        Plan::Extend { inner, variable, expression } => {
            let s = lemma_extend_origin(world, *inner, variable, expression, input, t);
            lemma_low(world, *inner, input, types, outside, s);
            lemma_infer_distinct(*inner, types);
            let a = infer(*inner, types);
            lemma_low_expr(world, expression, s, a);
            let y = infer_expr(expression, a);
            lemma_refine_types(a, variable, y);
            if let Some(term) = value(world, expression, s) {
                let cell: Solution = Map::empty().insert(variable, term);
                lemma_merge_extends(s, cell);
                assert(cell.dom().contains(variable));
            }
            assert forall|v: Seq<char>| !t.dom().contains(v) implies (#[trigger] type_of(
                infer(plan, types),
                v,
            )).undef by {
                assert(!s.dom().contains(v));
                assert(type_of(a, v).undef);
            }
        },
        Plan::Union { inner } => {
            let k = lemma_union_origin(world, inner, input, t);
            assert(all_loop(inner) || all_hygienic(inner, outside));
            lemma_low(world, inner[k], input, types, outside, t);
            lemma_union_low(inner, k, t, types);
        },
        Plan::Minus { left, right, .. } => {
            let ok = remains(eval(world, *right, input), input);
            lemma_keep_contains(eval(world, *left, input), ok, t);
            lemma_low(world, *left, input, types, outside, t);
        },
        Plan::OrderBy { inner, .. } => {
            lemma_low(world, *inner, input, types, outside, t);
        },
        Plan::Distinct { inner } | Plan::Reduced { inner } => {
            lemma_once(eval(world, *inner, input));
            lemma_low(world, *inner, input, types, outside, t);
        },
        Plan::Slice { inner, start, length } => {
            lemma_slice_origin(world, *inner, start, length, input, t);
            lemma_low(world, *inner, input, types, outside, t);
        },
        Plan::Project { inner, variables } => {
            assert(hide_variables(input, hidden(*inner, variables)) =~= input);
            let s = lemma_project_origin(world, *inner, variables, input, t);
            lemma_low(world, *inner, input, types, outside, s);
            lemma_infer_distinct(*inner, types);
            lemma_projected_types(types, infer(*inner, types), variables);
            assert forall|v: Seq<char>| !t.dom().contains(v) implies (#[trigger] type_of(
                infer(plan, types),
                v,
            )).undef by {
                if variables.contains(v) {
                    assert(lookup(t, v) == lookup(s, v));
                }
            }
        },
        Plan::Group { inner, variables, aggregates } => {
            assert(hide_variables(input, hidden(*inner, variables)) =~= input);
            let (g, s) = lemma_group_origin(world, *inner, variables, aggregates, input, t);
            lemma_infer_distinct(*inner, types);
            lemma_projected_types(types, infer(*inner, types), variables);
            lemma_aggregate_types(aggregates, projected(types, infer(*inner, types), variables));
            if variables.len() > 0 {
                lemma_low(world, *inner, input, types, outside, s);
            }
            assert forall|v: Seq<char>| !t.dom().contains(v) implies (#[trigger] type_of(
                infer(plan, types),
                v,
            )).undef by {
                if !aggregate_names(aggregates).contains(v) && variables.contains(v) {
                    assert(lookup(t, v) == lookup(s, v));
                }
            }
        },
    }
}

/// The variables of an expression without `EXISTS` that fits a loop have a value
/// anyway, or get none from the loop.
#[verifier::spinoff_prover]
proof fn lemma_expr_fits_names(
    e: Expr,
    types: Types,
    entry: Types,
    size: nat,
    limits: Limits,
    v: Seq<char>,
)
    requires
        expr_fits(e, types, entry, size, limits),
        !contains_exists(e),
        expr_variables(e).contains(v),
    ensures
        !type_of(types, v).undef || type_of(entry, v) == VariableType::of_undef(),
    decreases e,
{
    match e {
        Expr::Or(inner)
        | Expr::And(inner)
        | Expr::Coalesce(inner)
        | Expr::FunctionCall(_, inner) => {
            assert(all_exprs_fit(inner, types, entry, size, limits));
            assert(exprs_variables(inner).contains(v));
            let i = choose|i: int|
                0 <= i < inner.len() && expr_variables(#[trigger] inner[i]).contains(v);
            assert(!contains_exists(inner[i])) by {
                if contains_exists(inner[i]) {
                    assert(any_contains_exists(inner));
                }
            }
            lemma_expr_fits_names(inner[i], types, entry, size, limits, v);
        },
        Expr::Equal(left, right)
        | Expr::SameTerm(left, right)
        | Expr::Greater(left, right)
        | Expr::GreaterOrEqual(left, right)
        | Expr::Less(left, right)
        | Expr::LessOrEqual(left, right)
        | Expr::Add(left, right)
        | Expr::Subtract(left, right)
        | Expr::Multiply(left, right)
        | Expr::Divide(left, right) => {
            if expr_variables(*left).contains(v) {
                lemma_expr_fits_names(*left, types, entry, size, limits, v);
            } else {
                lemma_expr_fits_names(*right, types, entry, size, limits, v);
            }
        },
        Expr::UnaryPlus(inner) | Expr::UnaryMinus(inner) | Expr::Not(inner) => {
            lemma_expr_fits_names(*inner, types, entry, size, limits, v);
        },
        Expr::If(condition, then_case, else_case) => {
            if expr_variables(*condition).contains(v) {
                lemma_expr_fits_names(*condition, types, entry, size, limits, v);
            } else if expr_variables(*then_case).contains(v) {
                lemma_expr_fits_names(*then_case, types, entry, size, limits, v);
            } else {
                lemma_expr_fits_names(*else_case, types, entry, size, limits, v);
            }
        },
        _ => {},
    }
}

/// The variables that can have a value.
pub open spec fn bindable(types: Types, names: Names) -> bool {
    forall|v: Seq<char>|
        names.contains(v) ==> #[trigger] type_of(types, v) != VariableType::of_undef()
}

/// An expression that fits a loop has the same value when more is known.
proof fn lemma_expr_fits_value(
    world: World,
    e: Expr,
    types: Types,
    entry: Types,
    size: nat,
    limits: Limits,
    x: Solution,
    m: Solution,
    late: Names,
    sure: Names,
)
    requires
        regular(world),
        expr_fits(e, types, entry, size, limits),
        exists_covered(e, late, sure),
        low(x, types),
        extends(m, x),
        sure.subset_of(x.dom()),
        gained(x, m).subset_of(late),
        bindable(entry, gained(x, m)),
    ensures
        value(world, e, x) == value(world, e, m),
        holds(world, e, x) == holds(world, e, m),
    decreases e,
{
    if let Expr::And(inner) = e {
        assert(all_exprs_fit(inner, types, entry, size, limits));
        assert(all_exists_covered(inner, late, sure));
        assert forall|i: int| 0 <= i < inner.len() implies value(world, #[trigger] inner[i], x)
            == value(world, inner[i], m) by {
            lemma_expr_fits_value(
                world,
                inner[i],
                types,
                entry,
                size,
                limits,
                x,
                m,
                late,
                sure,
            );
        }
        assert(truths(world, inner, x) =~= truths(world, inner, m));
    } else if contains_exists(e) {
        lemma_covered_value(world, e, x, m, late, sure);
    } else {
        assert(agree(x, m, expr_variables(e))) by {
            assert forall|v: Seq<char>| #[trigger] expr_variables(e).contains(v) implies lookup(
                x,
                v,
            ) == lookup(m, v) by {
                if m.dom().contains(v) && !x.dom().contains(v) {
                    lemma_expr_fits_names(e, types, entry, size, limits, v);
                    assert(gained(x, m).contains(v));
                    assert(type_of(entry, v) != VariableType::of_undef());
                    assert(type_of(types, v).undef);
                }
            }
        }
        lemma_value_depends(world, e, x, m);
    }
}

/// Factors that get ordered all fit what is known when their turn comes.
pub proof fn lemma_ordered_fits(
    factors: Seq<Plan>,
    fit: spec_fn(int, Types) -> bool,
    remaining: Seq<bool>,
    current: Types,
    global: Types,
    limits: Limits,
    steps: nat,
    i: int,
) -> (entry: Types)
    requires
        all_get_ordered(factors, fit, remaining, current, global, limits, steps),
        remaining.len() == factors.len(),
        0 <= i < factors.len(),
        remaining[i],
        distinct_variables(current),
        distinct_variables(global),
    ensures
        fit(i, entry),
        distinct_variables(entry),
        forall|v: Seq<char>|
            type_of(current, v) != VariableType::of_undef() ==> #[trigger] type_of(entry, v)
                != VariableType::of_undef(),
    decreases steps,
{
    if steps == 0 {
        assert(nothing_remains(remaining));
        assert(!remaining[i]);
        current
    } else {
        let keys = fitting_keys(factors, fit, remaining, current, global, limits);
        lemma_least(keys);
        match least(keys) {
            Some(k) => {
                assert(keys[k] is Some);
                if k == i {
                    current
                } else {
                    lemma_infer_distinct(factors[k], global);
                    let next = intersect(current, infer(factors[k], global));
                    lemma_intersect_types(current, infer(factors[k], global));
                    let entry = lemma_ordered_fits(
                        factors,
                        fit,
                        remaining.update(k, false),
                        next,
                        global,
                        limits,
                        (steps - 1) as nat,
                        i,
                    );
                    assert forall|v: Seq<char>|
                        type_of(current, v) != VariableType::of_undef() implies #[trigger] type_of(
                        entry,
                        v,
                    ) != VariableType::of_undef() by {
                        assert(type_of(next, v) != VariableType::of_undef());
                    }
                    entry
                }
            },
            None => {
                assert(nothing_remains(remaining));
                assert(!remaining[i]);
                current
            },
        }
    }
}

/// Every factor of a join that fits a loop fits it, with what comes before.
pub proof fn lemma_factor_fits(
    plan: Plan,
    global: Types,
    entry: Types,
    size: nat,
    limits: Limits,
    i: int,
) -> (before: Types)
    requires
        plan is Join,
        fits(plan, global, entry, size, limits),
        distinct_variables(global),
        distinct_variables(entry),
        0 <= i < join_factors(plan).len(),
    ensures
        fits(join_factors(plan)[i], global, before, size, limits),
        distinct_variables(before),
        forall|v: Seq<char>|
            type_of(entry, v) != VariableType::of_undef() ==> #[trigger] type_of(before, v)
                != VariableType::of_undef(),
{
    let factors = join_factors(plan);
    let fit = factor_fits(plan, global, size, limits);
    assert(all_get_ordered(
        factors,
        fit,
        everything_remains(factors.len()),
        entry,
        global,
        limits,
        factors.len(),
    ));
    let before = lemma_ordered_fits(
        factors,
        fit,
        everything_remains(factors.len()),
        entry,
        global,
        limits,
        factors.len(),
        i,
    );
    assert(fit(i, before));
    before
}

/// A nest of joins can be evaluated in a loop if its operands can.
proof fn lemma_factors_loop(plan: Plan)
    requires
        all_loop(join_factors(plan)),
    ensures
        loops(plan),
    decreases plan,
{
    let fs = join_factors(plan);
    match plan {
        Plan::Join { left, right, .. } => {
            let (a, b) = (join_factors(*left), join_factors(*right));
            assert forall|i: int| 0 <= i < a.len() implies loops(#[trigger] a[i]) by {
                assert(loops(fs[i]));
            }
            assert forall|i: int| 0 <= i < b.len() implies loops(#[trigger] b[i]) by {
                assert(loops(fs[a.len() + i]));
            }
            lemma_factors_loop(*left);
            lemma_factors_loop(*right);
        },
        _ => {
            assert(loops(fs[0]));
        },
    }
}

/// A plan that fits a loop can be evaluated in a loop.
pub proof fn lemma_fits_loops(plan: Plan, global: Types, entry: Types, size: nat, limits: Limits)
    requires
        fits(plan, global, entry, size, limits),
        distinct_variables(global),
        distinct_variables(entry),
    ensures
        loops(plan),
    decreases plan,
{
    match plan {
        Plan::Join { .. } => {
            let fs = join_factors(plan);
            assert forall|i: int| 0 <= i < fs.len() implies loops(#[trigger] fs[i]) by {
                lemma_factors_decrease(plan, i);
                let before = lemma_factor_fits(plan, global, entry, size, limits, i);
                lemma_fits_loops(fs[i], global, before, size, limits);
            }
            lemma_factors_loop(plan);
        },
        Plan::Lateral { left, right } => {
            lemma_fits_loops(*left, global, entry, size, limits);
            lemma_fits_loops(*right, global, entry, size, limits);
        },
        Plan::LeftJoin { left, .. } => {
            lemma_fits_loops(*left, global, entry, size, limits);
        },
        Plan::Filter { inner, .. } | Plan::Extend { inner, .. } => {
            lemma_fits_loops(*inner, global, entry, size, limits);
        },
        Plan::Union { inner } => {
            assert(all_fit(inner, global, entry, size, limits));
            assert forall|i: int| 0 <= i < inner.len() implies loops(#[trigger] inner[i]) by {
                lemma_fits_loops(inner[i], global, entry, size, limits);
            }
            assert(all_loop(inner));
        },
        _ => {},
    }
}

/// Joined plans that each give the join where more is known.
proof fn lemma_follow_joined(
    world: World,
    factors: Seq<Plan>,
    less: Solution,
    more: Solution,
)
    requires
        extends(more, less),
        forall|i: int| 0 <= i < factors.len() ==> follows(world, #[trigger] factors[i], less, more),
    ensures
        same(eval_join(world, factors, more), joined_with(more, eval_join(world, factors, less))),
    decreases factors.len(),
{
    if factors.len() == 0 {
        lemma_extends_merge(more, less);
        lemma_compatible_sym(more, less);
        lemma_gather_single(less, |other: Solution| merged(more, other));
    } else {
        let shorter = factors.drop_last();
        let n = factors.len() - 1;
        assert forall|i: int| 0 <= i < shorter.len() implies follows(
            world,
            #[trigger] shorter[i],
            less,
            more,
        ) by {
            assert(follows(world, factors[i], less, more));
        }
        lemma_follow_joined(world, shorter, less, more);
        assert(follows(world, factors[n], less, more));
        lemma_follow_join(
            more,
            eval_join(world, shorter, more),
            eval(world, factors[n], more),
            eval_join(world, shorter, less),
            eval(world, factors[n], less),
        );
    }
}

/// What is known of the input of a plan in a loop, and of what it gains.
pub open spec fn enters(
    less: Solution,
    more: Solution,
    global: Types,
    entry: Types,
    sure: Names,
    outside: Names,
    late: Names,
) -> bool {
    &&& distinct_variables(global)
    &&& distinct_variables(entry)
    &&& typed(less, global, less.dom())
    &&& less.dom().subset_of(outside)
    &&& sure.subset_of(less.dom())
    &&& extends(more, less)
    &&& gained(less, more).subset_of(late)
    &&& bindable(entry, gained(less, more))
}

/// Deeper in a plan: from a solution of a part, to that solution joined with
/// what is known.
proof fn lemma_enters_deeper(
    world: World,
    part: Plan,
    less: Solution,
    more: Solution,
    global: Types,
    entry: Types,
    sure: Names,
    outside: Names,
    late: Names,
    s: Solution,
)
    requires
        regular(world),
        enters(less, more, global, entry, sure, outside, late),
        eval(world, part, less).contains(s),
        compatible(more, s),
    ensures
        enters(
            s,
            merge(more, s),
            global,
            entry,
            sure.union(binds(part)),
            outside.union(plan_variables(part)),
            late,
        ),
        extends(s, less),
{
    lemma_eval_within(world, part, less);
    let k = lemma_find(eval(world, part, less), s);
    assert(within(s, less, plan_variables(part)));
    lemma_eval_binds(world, part, less, s);
    lemma_merge_names(more, less, s);
    assert(typed(s, global, s.dom())) by {
        assert forall|v: Seq<char>|
            allowed(#[trigger] type_of(global, v), lookup(s, v), s.dom().contains(v)) by {
            assert(allowed(type_of(global, v), lookup(less, v), less.dom().contains(v)));
        }
    }
    assert(bindable(entry, gained(s, merge(more, s)))) by {
        assert forall|v: Seq<char>| gained(s, merge(more, s)).contains(v) implies
            #[trigger] type_of(entry, v) != VariableType::of_undef() by {
            assert(gained(less, more).contains(v));
        }
    }
}

/// What is well typed is typed from below.
proof fn lemma_enters_low(
    less: Solution,
    more: Solution,
    global: Types,
    entry: Types,
    sure: Names,
    outside: Names,
    late: Names,
)
    requires
        enters(less, more, global, entry, sure, outside, late),
    ensures
        low(less, global),
{
    assert forall|v: Seq<char>| !less.dom().contains(v) implies (#[trigger] type_of(
        global,
        v,
    )).undef by {
        assert(allowed(type_of(global, v), lookup(less, v), less.dom().contains(v)));
    }
}

/// A plan that fits a loop gives the join when it is evaluated in the loop.
#[verifier::spinoff_prover]
#[verifier::rlimit(60)]
pub proof fn law_loops_join(
    world: World,
    plan: Plan,
    global: Types,
    entry: Types,
    size: nat,
    limits: Limits,
    sure: Names,
    outside: Names,
    late: Names,
    less: Solution,
    more: Solution,
)
    requires
        regular(world),
        fits(plan, global, entry, size, limits),
        scoped(plan, sure, outside, late, correlation_threshold(limits)),
        late != Set::<Seq<char>>::empty(),
        enters(less, more, global, entry, sure, outside, late),
    ensures
        follows(world, plan, less, more),
    decreases plan, 1nat,
{
    lemma_enters_low(less, more, global, entry, sure, outside, late);
    lemma_fits_loops(plan, global, entry, size, limits);
    match plan {
        Plan::QuadPattern { .. }
        | Plan::Path { .. }
        | Plan::Graph { .. }
        | Plan::Service { .. } => {
            lemma_follow_lookup(world, plan, less, more, (world.atom)(plan));
        },
        Plan::Values { variables, bindings } => {
            lemma_follow_lookup(world, plan, less, more, table(variables, bindings));
        },
        Plan::Join { .. } => {
            let fs = join_factors(plan);
            lemma_factors_scoped(plan, sure, outside, late, correlation_threshold(limits));
            assert forall|i: int| 0 <= i < fs.len() implies follows(
                world,
                #[trigger] fs[i],
                less,
                more,
            ) by {
                lemma_factors_decrease(plan, i);
                let before = lemma_factor_fits(plan, global, entry, size, limits, i);
                let wide = late.union(other_variables(fs, i));
                assert(scoped(fs[i], sure, outside, wide, correlation_threshold(limits)));
                assert(wide != Set::<Seq<char>>::empty()) by {
                    if wide == Set::<Seq<char>>::empty() {
                        assert(late =~= Set::<Seq<char>>::empty());
                    }
                }
                assert(bindable(before, gained(less, more))) by {
                    assert forall|v: Seq<char>| gained(less, more).contains(v) implies
                        #[trigger] type_of(before, v) != VariableType::of_undef() by {
                        assert(type_of(entry, v) != VariableType::of_undef());
                    }
                }
                law_loops_join(
                    world,
                    fs[i],
                    global,
                    before,
                    size,
                    limits,
                    sure,
                    outside,
                    wide,
                    less,
                    more,
                );
            }
            lemma_follow_joined(world, fs, less, more);
            lemma_join_factors(world, plan, less);
            lemma_join_factors(world, plan, more);
            let f = |other: Solution| merged(more, other);
            lemma_gather_order(
                eval(world, plan, less),
                eval_join(world, fs, less),
                f,
            );
        },
        Plan::Lateral { left, right } => {
            law_loops_join(
                world,
                *left,
                global,
                entry,
                size,
                limits,
                sure,
                outside,
                late,
                less,
                more,
            );
            let l = eval(world, *left, less);
            assert forall|i: int| 0 <= i < l.len() && compatible(more, #[trigger] l[i]) implies
                follows(world, *right, l[i], merge(more, l[i])) by {
                lemma_contains_index(l, i);
                lemma_enters_deeper(
                    world,
                    *left,
                    less,
                    more,
                    global,
                    entry,
                    sure,
                    outside,
                    late,
                    l[i],
                );
                law_loops_join(
                    world,
                    *right,
                    global,
                    entry,
                    size,
                    limits,
                    sure.union(binds(*left)),
                    outside.union(plan_variables(*left)),
                    late,
                    l[i],
                    merge(more, l[i]),
                );
            }
            lemma_follow_lateral(world, more, eval(world, *left, more), l, *right);
        },
        Plan::LeftJoin { left, right, expression, keys } => {
            law_loops_join(
                world,
                *left,
                global,
                entry,
                size,
                limits,
                sure,
                outside,
                late,
                less,
                more,
            );
            if eval(world, *left, less).len() == 0 {
                lemma_nothing_follows(world, *left, *right, expression, keys, less, more);
            } else {
                lemma_fits_left_join(
                    world,
                    *left,
                    *right,
                    expression,
                    keys,
                    global,
                    entry,
                    size,
                    limits,
                    sure,
                    outside,
                    late,
                    less,
                    more,
                );
            }
        },
        Plan::Filter { inner, expression } => {
            law_loops_join(
                world,
                *inner,
                global,
                entry,
                size,
                limits,
                sure,
                outside,
                late,
                less,
                more,
            );
            let x = eval(world, *inner, less);
            assert forall|i: int| 0 <= i < x.len() && compatible(more, #[trigger] x[i]) implies
                holds(world, expression, merge(more, x[i])) == holds(world, expression, x[i])
                && value(world, expression, merge(more, x[i])) == value(
                world,
                expression,
                x[i],
            ) by {
                lemma_fits_condition(
                    world,
                    *inner,
                    expression,
                    global,
                    entry,
                    size,
                    limits,
                    sure,
                    outside,
                    late,
                    less,
                    more,
                    i,
                );
            }
            lemma_follow_filter(world, more, eval(world, *inner, more), x, expression);
        },
        Plan::Extend { inner, variable, expression } => {
            law_loops_join(
                world,
                *inner,
                global,
                entry,
                size,
                limits,
                sure,
                outside,
                late,
                less,
                more,
            );
            let x = eval(world, *inner, less);
            assert forall|i: int| 0 <= i < x.len() && compatible(more, #[trigger] x[i]) implies
                value(world, expression, merge(more, x[i])) == value(world, expression, x[i]) by {
                lemma_fits_condition(
                    world,
                    *inner,
                    expression,
                    global,
                    entry,
                    size,
                    limits,
                    sure,
                    outside,
                    late,
                    less,
                    more,
                    i,
                );
            }
            lemma_follow_extend(world, more, eval(world, *inner, more), x, variable, expression);
        },
        Plan::Union { inner } => {
            assert(all_fit(inner, global, entry, size, limits));
            assert(all_scoped(inner, sure, outside, late, correlation_threshold(limits)));
            assert forall|i: int| 0 <= i < inner.len() implies follows(
                world,
                #[trigger] inner[i],
                less,
                more,
            ) by {
                law_loops_join(
                    world,
                    inner[i],
                    global,
                    entry,
                    size,
                    limits,
                    sure,
                    outside,
                    late,
                    less,
                    more,
                );
            }
            lemma_follow_union(world, inner, less, more);
        },
        _ => {},
    }
}

/// A condition that fits a loop has the same value on a solution and on the
/// solution joined with what is known.
proof fn lemma_fits_condition(
    world: World,
    inner: Plan,
    expression: Expr,
    global: Types,
    entry: Types,
    size: nat,
    limits: Limits,
    sure: Names,
    outside: Names,
    late: Names,
    less: Solution,
    more: Solution,
    i: int,
)
    requires
        regular(world),
        loops(inner),
        expr_fits(expression, infer(inner, global), entry, size, limits),
        exists_covered(expression, late, sure.union(binds(inner))),
        enters(less, more, global, entry, sure, outside, late),
        0 <= i < eval(world, inner, less).len(),
        compatible(more, eval(world, inner, less)[i]),
    ensures
        ({
            let x = eval(world, inner, less)[i];
            &&& holds(world, expression, merge(more, x)) == holds(world, expression, x)
            &&& value(world, expression, merge(more, x)) == value(world, expression, x)
        }),
{
    let all = eval(world, inner, less);
    let x = all[i];
    lemma_contains_index(all, i);
    lemma_enters_low(less, more, global, entry, sure, outside, late);
    lemma_enters_deeper(world, inner, less, more, global, entry, sure, outside, late, x);
    lemma_low(world, inner, less, global, set![], x);
    lemma_expr_fits_value(
        world,
        expression,
        infer(inner, global),
        entry,
        size,
        limits,
        x,
        merge(more, x),
        late,
        sure.union(binds(inner)),
    );
}

/// A left join that has no left side in a loop either.
proof fn lemma_nothing_follows(
    world: World,
    left: Plan,
    right: Plan,
    expression: Expr,
    keys: Seq<Seq<char>>,
    less: Solution,
    more: Solution,
)
    requires
        follows(world, left, less, more),
        eval(world, left, less).len() == 0,
    ensures
        follows(
            world,
            (Plan::LeftJoin {
                left: Box::new(left),
                right: Box::new(right),
                expression,
                keys,
            }),
            less,
            more,
        ),
{
    let plan = Plan::LeftJoin { left: Box::new(left), right: Box::new(right), expression, keys };
    let (l, l1) = (eval(world, left, less), eval(world, left, more));
    assert(joined_with(more, l) =~= seq![]);
    lemma_same_items(l1, joined_with(more, l));
    assert(eval(world, plan, less) =~= seq![]);
    assert(eval(world, plan, more) =~= seq![]);
}

/// What is known, one part after the other.
proof fn lemma_follow_twice(
    world: World,
    plan: Plan,
    less: Solution,
    middle: Solution,
    more: Solution,
)
    requires
        extends(middle, less),
        extends(more, middle),
        follows(world, plan, less, middle),
        follows(world, plan, middle, more),
    ensures
        follows(world, plan, less, more),
{
    let e = eval(world, plan, less);
    let m = joined_with(middle, e);
    lemma_gather_order(eval(world, plan, middle), m, |other: Solution| merged(more, other));
    lemma_joined_again(more, middle, e);
}

/// In a loop that gives values to variables that neither the left side of a left
/// join uses nor the right side has loose, the right side ignores them.
proof fn lemma_loop_ignored(
    world: World,
    left: Plan,
    right: Plan,
    global: Types,
    entry: Types,
    sure: Names,
    outside: Names,
    late: Names,
    less: Solution,
    more: Solution,
    v: Seq<char>,
)
    requires
        regular(world),
        loops(left),
        !rebinds(infer(left, global), infer(right, global), entry),
        eval(world, left, less).len() > 0,
        enters(less, more, global, entry, sure, outside, late),
        gained(less, more).contains(v),
        !exposed(left, right, late.difference(sure)).contains(v),
    ensures
        ignored(right, global, v),
{
    let (a, b) = (infer(left, global), infer(right, global));
    let s = eval(world, left, less)[0];
    lemma_enters_low(less, more, global, entry, sure, outside, late);
    lemma_contains_index(eval(world, left, less), 0);
    lemma_low(world, left, less, global, set![], s);
    lemma_eval_within(world, left, less);
    assert(within(s, less, plan_variables(left)));
    lemma_infer_distinct(right, global);
    assert(!loose_variables(right).contains(v) && !plan_variables(left).contains(v));
    assert(type_of(global, v).undef);
    assert(lookup(s, v) == lookup(less, v));
    assert(type_of(a, v).undef);
    assert(type_of(entry, v) != VariableType::of_undef());
    if type_of(b, v) != VariableType::of_undef() {
        lemma_position(b, v);
        let p = position(b, v);
        assert(is_rebound(b[p], a, entry));
    }
}

/// The right side of a left join gives the join in a loop, and binds nothing of what
/// the loop gives values to but for exposed variables.
proof fn lemma_right_follows(
    world: World,
    left: Plan,
    right: Plan,
    global: Types,
    entry: Types,
    sure: Names,
    outside: Names,
    late: Names,
    less: Solution,
    more: Solution,
)
    requires
        regular(world),
        loops(left),
        !rebinds(infer(left, global), infer(right, global), entry),
        steady(right, exposed(left, right, late.difference(sure)), sure),
        eval(world, left, less).len() > 0,
        enters(less, more, global, entry, sure, outside, late),
    ensures
        follows(world, right, less, more),
        silent(
            world,
            right,
            less,
            gained(less, more).difference(exposed(left, right, late.difference(sure))),
        ),
{
    let few = exposed(left, right, late.difference(sure));
    let middle = more.restrict(less.dom().union(few));
    let aside = more.restrict(less.dom().union(gained(less, more).difference(few)));
    assert(extends(middle, less));
    assert(extends(more, middle));
    assert(extends(aside, less));
    assert(gained(less, middle).subset_of(few));
    lemma_steady_follows(world, right, few, sure, less, middle);
    assert forall|v: Seq<char>| #[trigger] gained(less, more).contains(v) && !few.contains(
        v,
    ) implies ignored(right, global, v) by {
        lemma_loop_ignored(
            world,
            left,
            right,
            global,
            entry,
            sure,
            outside,
            late,
            less,
            more,
            v,
        );
    }
    assert forall|v: Seq<char>| #[trigger] gained(middle, more).contains(v) implies ignored(
        right,
        global,
        v,
    ) by {
        assert(gained(less, more).contains(v));
    }
    assert forall|v: Seq<char>| #[trigger] gained(less, aside).contains(v) implies ignored(
        right,
        global,
        v,
    ) by {
        assert(gained(less, more).contains(v));
    }
    lemma_mute(world, right, global, middle, more);
    lemma_mute(world, right, global, less, aside);
    assert(gained(less, aside) =~= gained(less, more).difference(few));
    lemma_follow_twice(world, right, less, middle, more);
}

#[verifier::spinoff_prover]
#[verifier::rlimit(40)]
proof fn lemma_fits_left_join(
    world: World,
    left: Plan,
    right: Plan,
    expression: Expr,
    keys: Seq<Seq<char>>,
    global: Types,
    entry: Types,
    size: nat,
    limits: Limits,
    sure: Names,
    outside: Names,
    late: Names,
    less: Solution,
    more: Solution,
)
    requires
        regular(world),
        loops(left),
        !rebinds(infer(left, global), infer(right, global), entry),
        expr_fits(
            expression,
            intersect(infer(left, global), infer(right, global)),
            entry,
            size,
            limits,
        ),
        scoped(
            right,
            sure,
            outside.union(late),
            late.union(plan_variables(left)),
            correlation_threshold(limits),
        ),
        waits(left, right, sure, outside, late),
        exists_covered(expression, late, sure.union(binds(left)).union(binds(right))),
        eval(world, left, less).len() > 0,
        enters(less, more, global, entry, sure, outside, late),
        follows(world, left, less, more),
    ensures
        follows(
            world,
            (Plan::LeftJoin {
                left: Box::new(left),
                right: Box::new(right),
                expression,
                keys,
            }),
            less,
            more,
        ),
{
    lemma_right_follows(
        world,
        left,
        right,
        global,
        entry,
        sure,
        outside,
        late,
        less,
        more,
    );
    let few = exposed(left, right, late.difference(sure));
    lemma_scoped_hygienic(
        right,
        sure,
        outside.union(late),
        late.union(plan_variables(left)),
        correlation_threshold(limits),
    );
    lemma_enters_low(less, more, global, entry, sure, outside, late);
    let (l, r) = (eval(world, left, less), eval(world, right, less));
    let (a, b) = (infer(left, global), infer(right, global));
    lemma_infer_distinct(left, global);
    lemma_infer_distinct(right, global);
    lemma_intersect_types(a, b);
    lemma_eval_extends(world, left, less);
    lemma_eval_extends(world, right, less);
    assert forall|i: int, k: int|
        0 <= i < l.len() && 0 <= k < r.len() && compatible(more, l[i]) && compatible(
            l[i],
            r[k],
        ) implies compatible(more, #[trigger] merge(l[i], r[k])) && holds(
        world,
        expression,
        merge(more, merge(l[i], r[k])),
    ) == holds(world, expression, merge(l[i], r[k])) by {
        let (s, t) = (l[i], r[k]);
        let x = merge(s, t);
        lemma_contains_index(l, i);
        lemma_contains_index(r, k);
        assert(extends(s, less) && extends(t, less));
        lemma_merge_extends(s, t);
        lemma_low(world, left, less, global, set![], s);
        lemma_low(world, right, less, global, outside.union(late), t);
        lemma_eval_binds(world, left, less, s);
        assert(compatible(more, x)) by {
            assert forall|v: Seq<char>| #[trigger]
                more.dom().contains(v) && #[trigger] x.dom().contains(v) implies more[v]
                == x[v] by {
                if s.dom().contains(v) {
                    if t.dom().contains(v) {
                        assert(s[v] == t[v]);
                    }
                } else {
                    assert(t.dom().contains(v));
                    assert(!less.dom().contains(v));
                    assert(gained(less, more).contains(v));
                    if !few.contains(v) {
                        assert(gained(less, more).difference(few).contains(v));
                    }
                    assert(!binds(left).contains(v));
                    lemma_typed(world, right, less, global, less.dom(), outside.union(late), t);
                    assert(type_of(entry, v) != VariableType::of_undef());
                    assert(allowed(
                        type_of(b, v),
                        lookup(t, v),
                        less.dom().difference(binds(right)).contains(v),
                    ));
                    assert(type_of(a, v).undef);
                    lemma_position(b, v);
                    let p = position(b, v);
                    assert(is_rebound(b[p], a, entry));
                }
            }
        }
        lemma_extends_trans(x, s, less);
        lemma_merge_names(more, less, x);
        lemma_eval_binds(world, right, less, t);
        assert(low(x, intersect(a, b))) by {
            assert forall|v: Seq<char>| !x.dom().contains(v) implies (#[trigger] type_of(
                intersect(a, b),
                v,
            )).undef by {
                assert(type_of(a, v).undef && type_of(b, v).undef);
            }
        }
        assert(bindable(entry, gained(x, merge(more, x)))) by {
            assert forall|v: Seq<char>| gained(x, merge(more, x)).contains(v) implies
                #[trigger] type_of(entry, v) != VariableType::of_undef() by {
                assert(gained(less, more).contains(v));
            }
        }
        lemma_expr_fits_value(
            world,
            expression,
            intersect(a, b),
            entry,
            size,
            limits,
            x,
            merge(more, x),
            late,
            sure.union(binds(left)).union(binds(right)),
        );
    }
    lemma_follow_left_join(
        world,
        more,
        less,
        eval(world, left, more),
        l,
        eval(world, right, more),
        r,
        expression,
    );
}

} // verus!
