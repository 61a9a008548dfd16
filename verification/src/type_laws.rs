//! What the operations on types do to the type of each variable.

use vstd::prelude::*;

use crate::algebra::{AggregateExpr, Plan};
use crate::term::{NodePatternView, TermPatternView};
use crate::type_inference::{
    assign, column_type, distinct_variables, infer, infer_aggregates, infer_expr, infer_node,
    infer_table, infer_term, infer_union, intersect, lemma_filter_distinct, lemma_filter_holds,
    lemma_position, lemma_refine_distinct, optional, position, projected, refine, restrict, type_of,
    unite, weaken, widen, widen_variable, without, Types, VariableType,
};
use crate::variables::aggregate_names;

verus! {

/// The type of a variable is the one that is listed for it.
pub proof fn lemma_listed(types: Types, i: int)
    requires
        distinct_variables(types),
        0 <= i < types.len(),
    ensures
        position(types, types[i].0) == i,
        type_of(types, types[i].0) == types[i].1,
{
    lemma_position(types, types[i].0);
    let p = position(types, types[i].0);
    if p < 0 {
        assert(types[i].0 != types[i].0);
    }
    if p != i {
        assert(types[p].0 != types[i].0);
    }
}

pub proof fn lemma_unlisted(types: Types, variable: Seq<char>)
    requires
        forall|i: int| 0 <= i < types.len() ==> (#[trigger] types[i]).0 != variable,
    ensures
        position(types, variable) == -1,
        type_of(types, variable) == VariableType::of_undef(),
{
    lemma_position(types, variable);
    if position(types, variable) >= 0 {
        assert(types[position(types, variable)].0 == variable);
    }
}

pub proof fn lemma_refine_types(types: Types, variable: Seq<char>, t: VariableType)
    requires
        distinct_variables(types),
    ensures
        distinct_variables(refine(types, variable, t)),
        forall|x: Seq<char>| #[trigger]
            type_of(refine(types, variable, t), x) == if x == variable {
                t.and_spec(type_of(types, variable))
            } else {
                type_of(types, x)
            },
{
    lemma_refine_distinct(types, variable, t);
    lemma_position(types, variable);
    let i = position(types, variable);
    let r = refine(types, variable, t);
    assert forall|x: Seq<char>| #[trigger] type_of(r, x) == if x == variable {
        t.and_spec(type_of(types, variable))
    } else {
        type_of(types, x)
    } by {
        lemma_position(types, x);
        let j = position(types, x);
        if x == variable {
            if i < 0 {
                if t == VariableType::of_undef() {
                } else {
                    lemma_listed(r, types.len() as int);
                }
            } else {
                let both = t.and_spec(types[i].1);
                if both == VariableType::of_undef() {
                    assert forall|k: int| 0 <= k < r.len() implies (#[trigger] r[k]).0 != x by {
                        if k < i {
                            assert(r[k] == types[k]);
                        } else {
                            assert(r[k] == types[k + 1]);
                        }
                    }
                    lemma_unlisted(r, x);
                } else {
                    lemma_listed(r, i);
                }
            }
        } else if j >= 0 {
            if i >= 0 && t.and_spec(types[i].1) == VariableType::of_undef() {
                if j < i {
                    lemma_listed(r, j);
                } else {
                    assert(r[j - 1] == types[j]);
                    lemma_listed(r, j - 1);
                }
            } else {
                lemma_listed(r, j);
            }
        } else {
            assert forall|k: int| 0 <= k < r.len() implies (#[trigger] r[k]).0 != x by {
                if i >= 0 && t.and_spec(types[i].1) == VariableType::of_undef() {
                    if k < i {
                        assert(r[k] == types[k]);
                    } else {
                        assert(r[k] == types[k + 1]);
                    }
                } else if k < types.len() {
                    assert(types[k].0 != x);
                }
            }
            lemma_unlisted(r, x);
        }
    }
}

pub proof fn lemma_assign_types(types: Types, variable: Seq<char>, t: VariableType)
    requires
        distinct_variables(types),
    ensures
        distinct_variables(assign(types, variable, t)),
        forall|x: Seq<char>| #[trigger]
            type_of(assign(types, variable, t), x) == if x == variable {
                t
            } else {
                type_of(types, x)
            },
{
    lemma_refine_distinct(types, variable, t);
    lemma_position(types, variable);
    let i = position(types, variable);
    let r = assign(types, variable, t);
    assert forall|x: Seq<char>| #[trigger] type_of(r, x) == if x == variable {
        t
    } else {
        type_of(types, x)
    } by {
        lemma_position(types, x);
        let j = position(types, x);
        if x == variable {
            lemma_listed(
                r,
                if i < 0 {
                    types.len() as int
                } else {
                    i
                },
            );
        } else if j >= 0 {
            lemma_listed(r, j);
        } else {
            assert forall|k: int| 0 <= k < r.len() implies (#[trigger] r[k]).0 != x by {
                if k < types.len() {
                    assert(types[k].0 != x);
                }
            }
            lemma_unlisted(r, x);
        }
    }
}

/// The type of a variable on both sides.
pub proof fn lemma_intersect_types(types: Types, other: Types)
    requires
        distinct_variables(types),
        distinct_variables(other),
    ensures
        distinct_variables(intersect(types, other)),
        forall|x: Seq<char>| #[trigger]
            type_of(intersect(types, other), x) == type_of(other, x).and_spec(type_of(types, x)),
    decreases other.len(),
{
    if other.len() == 0 {
        assert forall|x: Seq<char>| #[trigger] type_of(intersect(types, other), x) == type_of(
            other,
            x,
        ).and_spec(type_of(types, x)) by {
            lemma_unlisted(other, x);
        }
    } else {
        let shorter = other.drop_last();
        let last = other.last();
        assert(distinct_variables(shorter));
        lemma_intersect_types(types, shorter);
        lemma_refine_types(intersect(types, shorter), last.0, last.1);
        assert forall|x: Seq<char>| #[trigger] type_of(intersect(types, other), x) == type_of(
            other,
            x,
        ).and_spec(type_of(types, x)) by {
            if x == last.0 {
                lemma_listed(other, other.len() - 1);
                assert forall|k: int| 0 <= k < shorter.len() implies (#[trigger] shorter[k]).0
                    != x by {
                    assert(other[k].0 != other[other.len() - 1].0);
                }
                lemma_unlisted(shorter, x);
                assert(type_of(intersect(types, shorter), x) == type_of(types, x));
            } else {
                lemma_position(shorter, x);
                assert(position(other, x) == position(shorter, x));
                assert(type_of(other, x) == type_of(shorter, x));
            }
        }
    }
}

pub proof fn lemma_optional_types(types: Types)
    requires
        distinct_variables(types),
    ensures
        distinct_variables(optional(types)),
        forall|x: Seq<char>| #[trigger]
            type_of(optional(types), x) == type_of(types, x).optional_spec(),
{
    let r = optional(types);
    assert(distinct_variables(r));
    assert forall|x: Seq<char>| #[trigger] type_of(r, x) == type_of(types, x).optional_spec() by {
        lemma_position(types, x);
        let j = position(types, x);
        if j >= 0 {
            lemma_listed(r, j);
        } else {
            assert forall|k: int| 0 <= k < r.len() implies (#[trigger] r[k]).0 != x by {
                assert(types[k].0 != x);
            }
            lemma_unlisted(r, x);
        }
    }
}

proof fn lemma_weaken_types(types: Types, other: Types)
    requires
        distinct_variables(types),
    ensures
        distinct_variables(weaken(types, other)),
        forall|x: Seq<char>| #[trigger]
            type_of(weaken(types, other), x) == if type_of(other, x).undef {
                type_of(types, x).optional_spec()
            } else {
                type_of(types, x)
            },
{
    let r = weaken(types, other);
    assert(distinct_variables(r));
    assert forall|x: Seq<char>| #[trigger] type_of(r, x) == if type_of(other, x).undef {
        type_of(types, x).optional_spec()
    } else {
        type_of(types, x)
    } by {
        lemma_position(types, x);
        let j = position(types, x);
        if j >= 0 {
            lemma_listed(r, j);
        } else {
            assert forall|k: int| 0 <= k < r.len() implies (#[trigger] r[k]).0 != x by {
                assert(types[k].0 != x);
            }
            lemma_unlisted(r, x);
        }
    }
}

proof fn lemma_widen_types(types: Types, other: Types)
    requires
        distinct_variables(types),
        distinct_variables(other),
    ensures
        distinct_variables(widen(types, other)),
        forall|x: Seq<char>| #[trigger]
            type_of(widen(types, other), x) == if position(other, x) >= 0 {
                type_of(types, x).or_spec(type_of(other, x))
            } else {
                type_of(types, x)
            },
    decreases other.len(),
{
    if other.len() > 0 {
        let shorter = other.drop_last();
        let last = other.last();
        assert(distinct_variables(shorter));
        lemma_widen_types(types, shorter);
        let w = widen(types, shorter);
        lemma_refine_distinct(w, last.0, last.1);
        lemma_position(w, last.0);
        let i = position(w, last.0);
        let r = widen(types, other);
        assert(r == widen_variable(w, last.0, last.1));
        assert forall|x: Seq<char>| #[trigger] type_of(r, x) == if position(other, x) >= 0 {
            type_of(types, x).or_spec(type_of(other, x))
        } else {
            type_of(types, x)
        } by {
            lemma_position(w, x);
            let j = position(w, x);
            if x == last.0 {
                lemma_listed(other, other.len() - 1);
                assert forall|k: int| 0 <= k < shorter.len() implies (#[trigger] shorter[k]).0
                    != x by {
                    assert(other[k].0 != other[other.len() - 1].0);
                }
                lemma_unlisted(shorter, x);
                assert(type_of(w, x) == type_of(types, x));
                if i < 0 {
                    lemma_listed(r, w.len() as int);
                    assert(type_of(types, x) == VariableType::of_undef());
                    assert(last.1.optional_spec() == VariableType::of_undef().or_spec(last.1));
                } else {
                    lemma_listed(r, i);
                    assert(type_of(w, x) == w[i].1);
                }
                assert(position(other, x) == other.len() - 1);
            } else {
                lemma_position(shorter, x);
                lemma_position(other, x);
                assert(position(other, x) == position(shorter, x));
                assert(type_of(other, x) == type_of(shorter, x));
                assert(type_of(w, x) == if position(shorter, x) >= 0 {
                    type_of(types, x).or_spec(type_of(shorter, x))
                } else {
                    type_of(types, x)
                });
                if j >= 0 {
                    assert(r[j] == w[j]);
                    lemma_listed(r, j);
                    assert(type_of(r, x) == type_of(w, x));
                } else {
                    assert forall|k: int| 0 <= k < r.len() implies (#[trigger] r[k]).0 != x by {
                        if k < w.len() {
                            assert(w[k].0 != x);
                        }
                    }
                    lemma_unlisted(r, x);
                }
            }
        }
    }
}

/// The type of a variable on either side.
pub proof fn lemma_unite_types(types: Types, other: Types)
    requires
        distinct_variables(types),
        distinct_variables(other),
    ensures
        distinct_variables(unite(types, other)),
        forall|x: Seq<char>| #[trigger]
            type_of(unite(types, other), x) == type_of(types, x).or_spec(type_of(other, x)),
{
    lemma_weaken_types(types, other);
    lemma_widen_types(weaken(types, other), other);
    assert forall|x: Seq<char>| #[trigger] type_of(unite(types, other), x) == type_of(
        types,
        x,
    ).or_spec(type_of(other, x)) by {
        lemma_position(other, x);
        assert(type_of(weaken(types, other), x) == if type_of(other, x).undef {
            type_of(types, x).optional_spec()
        } else {
            type_of(types, x)
        });
    }
}

proof fn lemma_filtered_types(
    types: Types,
    keep: spec_fn((Seq<char>, VariableType)) -> bool,
    x: Seq<char>,
)
    requires
        distinct_variables(types),
    ensures
        distinct_variables(types.filter(keep)),
        position(types, x) >= 0 && keep(types[position(types, x)]) ==> type_of(
            types.filter(keep),
            x,
        ) == type_of(types, x),
        position(types, x) < 0 || !keep(types[position(types, x)]) ==> forall|k: int|
            0 <= k < types.filter(keep).len() ==> (#[trigger] types.filter(keep)[k]).0 != x,
{
    broadcast use vstd::seq_lib::group_filter_ensures;

    lemma_filter_distinct(types, keep);
    lemma_filter_holds(types, keep);
    lemma_position(types, x);
    let p = position(types, x);
    let r = types.filter(keep);
    if p >= 0 && keep(types[p]) {
        assert(r.contains(types[p]));
        let k = choose|k: int| 0 <= k < r.len() && r[k] == types[p];
        lemma_listed(r, k);
    } else {
        assert forall|k: int| 0 <= k < r.len() implies (#[trigger] r[k]).0 != x by {
            let j = choose|j: int| 0 <= j < types.len() && types[j] == r[k];
            if r[k].0 == x {
                lemma_listed(types, j);
            }
        }
    }
}

/// The type of a variable after a projection.
pub proof fn lemma_projected_types(types: Types, inner: Types, variables: Seq<Seq<char>>)
    requires
        distinct_variables(types),
        distinct_variables(inner),
    ensures
        distinct_variables(projected(types, inner, variables)),
        forall|x: Seq<char>| #[trigger]
            type_of(projected(types, inner, variables), x) == if variables.contains(x) {
                type_of(inner, x)
            } else {
                type_of(types, x)
            },
{
    let a = without(types, variables);
    let b = restrict(inner, variables);
    let out = |e: (Seq<char>, VariableType)| !variables.contains(e.0);
    let inside = |e: (Seq<char>, VariableType)| variables.contains(e.0);
    lemma_filter_distinct(types, out);
    lemma_filter_distinct(inner, inside);
    lemma_filter_holds(types, out);
    lemma_filter_holds(inner, inside);
    let r = projected(types, inner, variables);
    assert(distinct_variables(r)) by {
        assert forall|i: int, j: int| 0 <= i < r.len() && 0 <= j < r.len() && i != j implies (
        #[trigger] r[i]).0 != (#[trigger] r[j]).0 by {
            if i < a.len() {
                assert(out(a[i]));
            } else {
                assert(inside(b[i - a.len()]));
            }
            if j < a.len() {
                assert(out(a[j]));
            } else {
                assert(inside(b[j - a.len()]));
            }
        }
    }
    assert forall|x: Seq<char>| #[trigger] type_of(r, x) == if variables.contains(x) {
        type_of(inner, x)
    } else {
        type_of(types, x)
    } by {
        lemma_filtered_types(types, out, x);
        lemma_filtered_types(inner, inside, x);
        lemma_position(types, x);
        lemma_position(inner, x);
        lemma_position(a, x);
        lemma_position(b, x);
        let (p, q) = (position(a, x), position(b, x));
        if variables.contains(x) {
            if q >= 0 {
                assert(r[a.len() + q] == b[q]);
                lemma_listed(r, a.len() + q);
            } else {
                assert forall|k: int| 0 <= k < r.len() implies (#[trigger] r[k]).0 != x by {
                    if k < a.len() {
                        assert(out(a[k]));
                    } else {
                        assert(b[k - a.len()].0 != x);
                    }
                }
                lemma_unlisted(r, x);
            }
        } else {
            if p >= 0 {
                assert(r[p] == a[p]);
                lemma_listed(r, p);
            } else {
                assert forall|k: int| 0 <= k < r.len() implies (#[trigger] r[k]).0 != x by {
                    if k < a.len() {
                        assert(a[k].0 != x);
                    } else {
                        assert(inside(b[k - a.len()]));
                    }
                }
                lemma_unlisted(r, x);
            }
        }
    }
}

pub proof fn lemma_aggregate_types(aggregates: Seq<(Seq<char>, AggregateExpr)>, types: Types)
    requires
        distinct_variables(types),
    ensures
        distinct_variables(infer_aggregates(aggregates, types)),
        forall|x: Seq<char>| #[trigger]
            type_of(infer_aggregates(aggregates, types), x) == if aggregate_names(
                aggregates,
            ).contains(x) {
                VariableType::of_anything()
            } else {
                type_of(types, x)
            },
    decreases aggregates.len(),
{
    let name = |a: (Seq<char>, AggregateExpr)| a.0;
    if aggregates.len() == 0 {
        assert(aggregates.map_values(name) =~= seq![]);
    } else {
        let shorter = aggregates.drop_last();
        lemma_aggregate_types(shorter, types);
        lemma_assign_types(
            infer_aggregates(shorter, types),
            aggregates.last().0,
            VariableType::of_anything(),
        );
        let names = aggregates.map_values(name);
        assert(names =~= shorter.map_values(name).push(aggregates.last().0));
        assert forall|x: Seq<char>| names.contains(x) == (shorter.map_values(name).contains(x) || x
            == aggregates.last().0) by {
            if shorter.map_values(name).contains(x) {
                let k = choose|k: int|
                    0 <= k < shorter.len() && shorter.map_values(name)[k] == x;
                assert(names[k] == x);
            }
            assert(names[names.len() - 1] == aggregates.last().0);
            if names.contains(x) && x != aggregates.last().0 {
                let k = choose|k: int| 0 <= k < names.len() && names[k] == x;
                assert(shorter.map_values(name)[k] == x);
            }
        }
        assert forall|x: Seq<char>| #[trigger] type_of(infer_aggregates(aggregates, types), x)
            == if aggregate_names(aggregates).contains(x) {
            VariableType::of_anything()
        } else {
            type_of(types, x)
        } by {
            assert(aggregate_names(aggregates).contains(x) == names.contains(x));
            assert(aggregate_names(shorter).contains(x) == shorter.map_values(name).contains(x));
        }
    }
}

proof fn lemma_term_distinct(pattern: TermPatternView, is_object: bool, types: Types)
    requires
        distinct_variables(types),
    ensures
        distinct_variables(infer_term(pattern, is_object, types)),
    decreases pattern,
{
    match pattern {
        TermPatternView::Variable(v) => {
            lemma_refine_distinct(types, v, VariableType::of_term());
            lemma_refine_distinct(types, v, VariableType::of_subject());
        },
        TermPatternView::Triple { subject, predicate, object } => {
            lemma_term_distinct(*subject, false, types);
            let a = infer_term(*subject, false, types);
            lemma_node_distinct(predicate, a);
            lemma_term_distinct(*object, true, infer_node(predicate, a));
        },
        _ => {},
    }
}

proof fn lemma_node_distinct(pattern: NodePatternView, types: Types)
    requires
        distinct_variables(types),
    ensures
        distinct_variables(infer_node(pattern, types)),
{
    if let NodePatternView::Variable(v) = pattern {
        lemma_refine_distinct(types, v, VariableType::of_named_node());
    }
}

proof fn lemma_table_distinct(plan: Plan, columns: int, types: Types)
    requires
        distinct_variables(types),
        plan is Values,
    ensures
        distinct_variables(
            infer_table(plan->Values_variables, plan->bindings, columns, types),
        ),
    decreases columns,
{
    if columns > 0 {
        lemma_table_distinct(plan, columns - 1, types);
        lemma_refine_distinct(
            infer_table(plan->Values_variables, plan->bindings, columns - 1, types),
            plan->Values_variables[columns - 1],
            column_type(plan->bindings, columns - 1),
        );
    }
}

/// Inference lists no variable twice.
pub proof fn lemma_infer_distinct(plan: Plan, types: Types)
    requires
        distinct_variables(types),
    ensures
        distinct_variables(infer(plan, types)),
    decreases plan,
{
    match plan {
        Plan::Values { variables, bindings } => {
            lemma_table_distinct(plan, variables.len() as int, types);
        },
        Plan::QuadPattern { subject, predicate, object, graph_name } => {
            lemma_term_distinct(subject, false, types);
            let a = infer_term(subject, false, types);
            lemma_node_distinct(predicate, a);
            let b = infer_node(predicate, a);
            lemma_term_distinct(object, true, b);
            if let Some(pattern) = graph_name {
                lemma_node_distinct(pattern, infer_term(object, true, b));
            }
        },
        Plan::Path { subject, object, graph_name, .. } => {
            lemma_term_distinct(subject, true, types);
            let a = infer_term(subject, true, types);
            lemma_term_distinct(object, true, a);
            if let Some(pattern) = graph_name {
                lemma_node_distinct(pattern, infer_term(object, true, a));
            }
        },
        Plan::Graph { graph_name } => {
            lemma_node_distinct(graph_name, types);
        },
        Plan::Join { left, right, .. } => {
            lemma_infer_distinct(*left, types);
            lemma_infer_distinct(*right, types);
            lemma_intersect_types(infer(*left, types), infer(*right, types));
        },
        Plan::Lateral { left, right } => {
            lemma_infer_distinct(*left, types);
            lemma_infer_distinct(*right, infer(*left, types));
        },
        Plan::LeftJoin { left, right, .. } => {
            lemma_infer_distinct(*left, types);
            lemma_infer_distinct(*right, types);
            lemma_optional_types(infer(*right, types));
            lemma_intersect_types(infer(*left, types), optional(infer(*right, types)));
        },
        Plan::Minus { left, .. } => {
            lemma_infer_distinct(*left, types);
        },
        Plan::Union { inner } => {
            lemma_infer_union_distinct(inner, types);
        },
        Plan::Extend { inner, variable, expression } => {
            lemma_infer_distinct(*inner, types);
            let t = infer(*inner, types);
            lemma_refine_distinct(
                t,
                variable,
                infer_expr(expression, t),
            );
        },
        Plan::Filter { inner, .. }
        | Plan::OrderBy { inner, .. }
        | Plan::Distinct { inner }
        | Plan::Reduced { inner }
        | Plan::Slice { inner, .. } => {
            lemma_infer_distinct(*inner, types);
        },
        Plan::Project { inner, variables } => {
            lemma_infer_distinct(*inner, types);
            lemma_projected_types(types, infer(*inner, types), variables);
        },
        Plan::Group { inner, variables, aggregates } => {
            lemma_infer_distinct(*inner, types);
            lemma_projected_types(types, infer(*inner, types), variables);
            lemma_aggregate_types(aggregates, projected(types, infer(*inner, types), variables));
        },
        Plan::Service { name, inner, silent } => {
            lemma_infer_distinct(*inner, types);
            lemma_node_distinct(name, infer(*inner, types));
            let t = infer_node(name, infer(*inner, types));
            lemma_optional_types(t);
            lemma_intersect_types(types, optional(t));
        },
    }
}

proof fn lemma_infer_union_distinct(inner: Seq<Plan>, types: Types)
    requires
        distinct_variables(types),
    ensures
        distinct_variables(infer_union(inner, types)),
    decreases inner,
{
    if inner.len() == 1 {
        lemma_infer_distinct(inner[0], types);
    } else if inner.len() > 1 {
        lemma_infer_union_distinct(inner.drop_last(), types);
        lemma_infer_distinct(inner[inner.len() - 1], types);
        lemma_unite_types(
            infer_union(inner.drop_last(), types),
            infer(inner[inner.len() - 1], types),
        );
    }
}

} // verus!
