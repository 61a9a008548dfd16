//! Optimizing the plans inside `EXISTS` does not change the values of
//! expressions.

use vstd::prelude::*;
use vstd::set_lib::lemma_len_subset;

use crate::algebra::{Expr, OrderExpr, Plan};
use crate::bags::{lemma_same_items, same};
use crate::builders::{
    all_conjuncts, and_all, distinct, empty, extend, filter, group, join, lateral, left_join, minus,
    order_by, project, reduced, slice, truth, union_all,
};
use crate::expr_laws::{
    lemma_and_all, lemma_bool_truth, lemma_equal, lemma_if, lemma_not, lemma_or_all,
    lemma_same_term,
};
use crate::laws::empty_world;
use crate::limits::Limits;
use crate::lookups::{all_bound, correlation_threshold, highly_correlated, outer_variables};
use crate::normalize::normalize;
use crate::normalize_laws::{lemma_normalize, lemma_normalize_tamer, placed};
use crate::ordering_laws::good;
use crate::plan_laws::lemma_exists;
use crate::plan_taming::{
    is_wrapper, lemma_filter_tamer, lemma_group_tamer, lemma_join_tamer, lemma_lateral_tamer,
    lemma_left_join_tamer, lemma_minus_tamer, lemma_union_tamer, lemma_wrappers_tamer,
};
use crate::push_filters::{
    added_filters, bound_filters, doubly_open_filters, filters_with, filters_without,
    is_right_condition, lateral_filter_out, open_filters, push, push_all,
};
use crate::push_laws::{law_push_preserves, lemma_nothing_pushed, lemma_push_variables};
use crate::reorder::{optimize_with, reorder_all_exists, reorder_exists, Reordering};
use crate::rewriting::{better, each_once, lemma_once_less, preserved};
use crate::scope::{all_hygienic_exprs, all_proper_exprs, proper_expr};
use crate::scoping::{
    all_expr_paths, all_hidden, all_paths, all_plain, all_plain_exprs, all_scoped_exprs, expr_paths,
    hidden_variables, hides_nothing, is_bare, lemma_plain_expr_paths, lemma_plain_scoped,
    lemma_scoped_hidden, lemma_scoped_hygienic, plain, plain_expr, plan_paths, scoped_expr,
    side_by_side, worked, Names, Paths, Trace,
};
use crate::semantics::{eval, hidden, matches_once, regular, truths, value, values, World};
use crate::solutions::Solution;
use crate::taming::{
    all_tamer_exprs, lemma_and_tamer, lemma_call_tamer, lemma_equal_tamer, lemma_exists_tamer,
    lemma_if_tamer, lemma_list_tamer, lemma_not_tamer, lemma_or_tamer, lemma_parts_tamer,
    lemma_tamer_expr_trans, lemma_tamer_simple, parts_tamer, tamer_expr,
};
use crate::type_inference::{distinct_variables, infer, Types};
use crate::variables::{expr_variables, exprs_variables, lemma_plan_finite, plan_variables};

verus! {

/// The paths that a plan follows, and the variables that it hides.
spec fn deep_paths(plan: Plan) -> Paths {
    plan_paths(plan).filter(|p: (Trace, bool)| p.0 is Path || p.0 is Hidden)
}

/// Whether a plan follows no other paths than a plan and some filters, and is
/// plain if they are.
#[verifier::opaque]
spec fn stays_plain(new: Plan, old: Plan, filters: Seq<Expr>) -> bool {
    &&& forall|p: (Trace, bool)| #[trigger]
        deep_paths(new).contains(p) ==> deep_paths(old).contains(p) || all_expr_paths(
            filters,
        ).contains(p)
    &&& plain(old) && all_plain_exprs(filters) ==> plain(new)
    &&& is_bare(old) && all_true(filters) ==> is_bare(new)
}

/// Filters that hold.
spec fn all_true(filters: Seq<Expr>) -> bool {
    forall|i: int| 0 <= i < filters.len() ==> #[trigger] filters[i] == truth(true)
}

/// Filters that hold change nothing.
proof fn lemma_all_true(inner: Plan, filters: Seq<Expr>)
    requires
        all_true(filters),
    ensures
        filter(inner, and_all(filters)) == inner || filter(inner, and_all(filters)) == empty(),
    decreases filters.len(),
{
    lemma_bool_truth(empty_world(), true);
    lemma_true_conjuncts(filters);
    assert(and_all(filters) == truth(true));
}

proof fn lemma_true_conjuncts(filters: Seq<Expr>)
    requires
        all_true(filters),
    ensures
        all_conjuncts(filters) == Seq::<Expr>::empty(),
    decreases filters.len(),
{
    lemma_bool_truth(empty_world(), true);
    if filters.len() > 0 {
        let shorter = filters.drop_last();
        assert forall|i: int| 0 <= i < shorter.len() implies #[trigger] shorter[i] == truth(
            true,
        ) by {
            assert(filters[i] == truth(true));
        }
        lemma_true_conjuncts(shorter);
        assert(filters[filters.len() - 1] == truth(true));
    }
}

/// Some of the filters that hold.
proof fn lemma_some_true(filters: Seq<Expr>, condition: spec_fn(Expr) -> bool)
    ensures
        all_true(filters) ==> all_true(filters.filter(condition)),
    decreases filters.len(),
{
    reveal(Seq::filter);
    let some = filters.filter(condition);
    if all_true(filters) && filters.len() > 0 {
        let shorter = filters.drop_last();
        let before = shorter.filter(condition);
        assert forall|i: int| 0 <= i < shorter.len() implies #[trigger] shorter[i] == truth(
            true,
        ) by {
            assert(filters[i] == truth(true));
        }
        lemma_some_true(shorter, condition);
        assert(filters[filters.len() - 1] == truth(true));
        assert forall|i: int| 0 <= i < some.len() implies #[trigger] some[i] == truth(true) by {
            if i < before.len() {
                assert(some[i] == before[i]);
            }
        }
    }
}

/// The paths of an expression are joined with themselves.
proof fn lemma_marked(expression: Expr, p: (Trace, bool))
    requires
        expr_paths(expression).contains(p),
    ensures
        p.1,
    decreases expression,
{
    match expression {
        Expr::Or(inner)
        | Expr::And(inner)
        | Expr::Coalesce(inner)
        | Expr::FunctionCall(_, inner) => {
            assert(all_expr_paths(inner).contains(p));
            let i = choose|i: int| 0 <= i < inner.len() && expr_paths(#[trigger] inner[i]).contains(p);
            lemma_marked(inner[i], p);
        },
        Expr::Equal(left, right)
        | Expr::SameTerm(left, right)
        | Expr::Greater(left, right)
        | Expr::GreaterOrEqual(left, right)
        | Expr::Less(left, right)
        | Expr::LessOrEqual(left, right)
        | Expr::Add(left, right)
        | Expr::Subtract(left, right)
        | Expr::Multiply(left, right)
        | Expr::Divide(left, right) => {
            if expr_paths(*left).contains(p) {
                lemma_marked(*left, p);
            } else {
                lemma_marked(*right, p);
            }
        },
        Expr::UnaryPlus(inner) | Expr::UnaryMinus(inner) | Expr::Not(inner) => {
            lemma_marked(*inner, p);
        },
        Expr::If(condition, then_case, else_case) => {
            if expr_paths(*condition).contains(p) {
                lemma_marked(*condition, p);
            } else if expr_paths(*then_case).contains(p) {
                lemma_marked(*then_case, p);
            } else {
                lemma_marked(*else_case, p);
            }
        },
        _ => {},
    }
}

proof fn lemma_all_marked(expressions: Seq<Expr>, p: (Trace, bool))
    ensures
        all_expr_paths(expressions).contains(p) ==> p.1,
{
    if all_expr_paths(expressions).contains(p) {
        let i = choose|i: int|
            0 <= i < expressions.len() && expr_paths(#[trigger] expressions[i]).contains(p);
        lemma_marked(expressions[i], p);
    }
}

/// Some of the filters.
proof fn lemma_some_filters(filters: Seq<Expr>, condition: spec_fn(Expr) -> bool)
    ensures
        all_expr_paths(filters.filter(condition)).subset_of(all_expr_paths(filters)),
        all_plain_exprs(filters) ==> all_plain_exprs(filters.filter(condition)),
    decreases filters.len(),
{
    reveal(Seq::filter);
    let all = filters.filter(condition);
    if filters.len() > 0 {
        let shorter = filters.drop_last();
        let before = shorter.filter(condition);
        let n = filters.len() - 1;
        lemma_some_filters(shorter, condition);
        assert forall|p: (Trace, bool)| #[trigger] all_expr_paths(all).contains(p) implies all_expr_paths(
            filters,
        ).contains(p) by {
            let k = choose|k: int| 0 <= k < all.len() && expr_paths(#[trigger] all[k]).contains(p);
            if k < before.len() {
                assert(all[k] == before[k]);
                assert(all_expr_paths(before).contains(p));
                let i = choose|i: int|
                    0 <= i < shorter.len() && expr_paths(#[trigger] shorter[i]).contains(p);
                assert(expr_paths(filters[i]).contains(p));
            } else {
                assert(expr_paths(filters[n]).contains(p));
            }
        }
        if all_plain_exprs(filters) {
            assert forall|i: int| 0 <= i < shorter.len() implies plain_expr(
                #[trigger] shorter[i],
            ) by {
                assert(plain_expr(filters[i]));
            }
            assert(all_plain_exprs(before));
            assert forall|k: int| 0 <= k < all.len() implies plain_expr(#[trigger] all[k]) by {
                if k < before.len() {
                    assert(all[k] == before[k]);
                } else {
                    assert(plain_expr(filters[n]));
                }
            }
        }
    } else {
        assert(all =~= filters);
    }
}

/// A plan under the conjunction of some filters.
proof fn lemma_filter_plain(inner: Plan, filters: Seq<Expr>, threshold: nat)
    ensures
        stays_plain(filter(inner, and_all(filters)), inner, filters),
{
    reveal(stays_plain);
    let e = and_all(filters);
    let raw = Plan::Filter { inner: Box::new(inner), expression: e };
    lemma_filter_tamer(inner, e, threshold);
    lemma_and_tamer(filters, threshold);
    if all_true(filters) {
        lemma_all_true(inner, filters);
    }
    assert(expr_paths(Expr::And(filters)) == all_expr_paths(filters));
    assert(plain_expr(Expr::And(filters)) == all_plain_exprs(filters));
    assert(plain(raw) == (plain(inner) && plain_expr(e)));
    assert forall|p: (Trace, bool)| #[trigger] deep_paths(filter(inner, e)).contains(p) implies deep_paths(
        inner,
    ).contains(p) || all_expr_paths(filters).contains(p) by {
        assert(deep_paths(raw).contains(p));
        assert(deep_paths(inner).contains(p) || expr_paths(e).contains(p));
    }
}

/// The filters with a condition added.
proof fn lemma_added_plain(filters: Seq<Expr>, expression: Expr)
    ensures
        forall|p: (Trace, bool)| #[trigger]
            all_expr_paths(added_filters(filters, expression)).contains(p) ==> all_expr_paths(
                filters,
            ).contains(p) || expr_paths(expression).contains(p),
        all_plain_exprs(filters) && plain_expr(expression) ==> all_plain_exprs(
            added_filters(filters, expression),
        ),
{
    let all = added_filters(filters, expression);
    let more = match expression {
        Expr::And(inner) => inner,
        _ => seq![expression],
    };
    assert(all =~= filters + more);
    assert forall|p: (Trace, bool)| #[trigger] all_expr_paths(all).contains(p) implies all_expr_paths(
        filters,
    ).contains(p) || expr_paths(expression).contains(p) by {
        let k = choose|k: int| 0 <= k < all.len() && expr_paths(#[trigger] all[k]).contains(p);
        if k < filters.len() {
            assert(expr_paths(filters[k]).contains(p));
        } else {
            let m = k - filters.len();
            assert(expr_paths(more[m]).contains(p));
            if expression is And {
                assert(all_expr_paths(more).contains(p));
            }
        }
    }
    if all_plain_exprs(filters) && plain_expr(expression) {
        assert forall|k: int| 0 <= k < all.len() implies plain_expr(#[trigger] all[k]) by {
            if k < filters.len() {
                assert(plain_expr(filters[k]));
            } else {
                if expression is And {
                    assert(all_plain_exprs(more));
                }
                assert(plain_expr(more[k - filters.len()]));
            }
        }
    }
}

/// A filter of the right side of a lateral join, moved out.
proof fn lemma_filter_out_plain(left: Plan, right: Plan, threshold: nat)
    ensures
        deep_paths(lateral_filter_out(left, right)).subset_of(
            deep_paths(left).union(deep_paths(right)),
        ),
        plain(left) && plain(right) && hides_nothing(right) ==> plain(
            lateral_filter_out(left, right),
        ),
{
    let new = lateral_filter_out(left, right);
    lemma_lateral_tamer(left, right, threshold);
    if let Plan::Filter { inner, expression } = right {
        lemma_lateral_tamer(left, *inner, threshold);
        let l = lateral(left, *inner);
        lemma_filter_tamer(l, expression, threshold);
        let raw = Plan::Filter { inner: Box::new(l), expression };
        assert(plain(raw) == (plain(l) && plain_expr(expression)));
        if hides_nothing(right) {
            assert forall|v: Seq<char>| !#[trigger] hidden_variables(*inner).contains(v) by {
                assert(!hidden_variables(right).contains(v));
            }
        }
        assert forall|p: (Trace, bool)| #[trigger] deep_paths(new).contains(p) implies deep_paths(
            left,
        ).union(deep_paths(right)).contains(p) by {
            assert(deep_paths(raw).contains(p));
            assert(deep_paths(l).contains(p) || expr_paths(expression).contains(p));
        }
    }
}

/// What some plans follow together, and whether all are plain.
proof fn lemma_join_plain(left: Plan, right: Plan, keys: Seq<Seq<char>>, threshold: nat)
    ensures
        forall|p: (Trace, bool)| #[trigger]
            deep_paths(join(left, right, keys)).contains(p) ==> side_by_side(
                deep_paths(left),
                deep_paths(right),
            ).contains(p),
        plain(left) && plain(right) ==> plain(join(left, right, keys)),
{
    lemma_join_tamer(left, right, keys, threshold);
    let raw = Plan::Join { left: Box::new(left), right: Box::new(right), keys };
    assert(plain(raw) == (plain(left) && plain(right)));
    assert(deep_paths(raw) == side_by_side(deep_paths(left), deep_paths(right)));
}

proof fn lemma_left_join_plain(
    left: Plan,
    right: Plan,
    expression: Expr,
    keys: Seq<Seq<char>>,
    threshold: nat,
)
    ensures
        forall|p: (Trace, bool)| #[trigger]
            deep_paths(left_join(left, right, expression, keys)).contains(p) ==> side_by_side(
                deep_paths(left),
                deep_paths(right),
            ).contains(p) || expr_paths(expression).contains(p),
{
    lemma_left_join_tamer(left, right, expression, keys, threshold);
    let raw = Plan::LeftJoin { left: Box::new(left), right: Box::new(right), expression, keys };
    assert(deep_paths(raw).subset_of(
        side_by_side(deep_paths(left), deep_paths(right)).union(expr_paths(expression)),
    ));
}

proof fn lemma_minus_plain(left: Plan, right: Plan, keys: Seq<Seq<char>>, threshold: nat)
    ensures
        forall|p: (Trace, bool)| #[trigger]
            deep_paths(minus(left, right, keys)).contains(p) ==> deep_paths(left).contains(p)
                || deep_paths(right).contains(p),
        plain(left) && plain(right) ==> plain(minus(left, right, keys)),
{
    lemma_minus_tamer(left, right, keys, threshold);
    let raw = Plan::Minus { left: Box::new(left), right: Box::new(right), keys };
    assert(plain(raw) == (plain(left) && plain(right)));
    assert forall|p: (Trace, bool)| #[trigger] deep_paths(minus(left, right, keys)).contains(p) implies
        deep_paths(left).contains(p) || deep_paths(right).contains(p) by {
        assert(deep_paths(raw).contains(p));
    }
}

proof fn lemma_extend_plain(inner: Plan, variable: Seq<char>, expression: Expr, threshold: nat)
    ensures
        forall|p: (Trace, bool)| #[trigger]
            deep_paths(extend(inner, variable, expression)).contains(p) ==> deep_paths(
                inner,
            ).contains(p) || expr_paths(expression).contains(p),
        plain(inner) && plain_expr(expression) ==> plain(extend(inner, variable, expression)),
{
    lemma_wrappers_tamer(inner, variable, expression, seq![], 0, None, threshold);
    let raw = Plan::Extend { inner: Box::new(inner), variable, expression };
    assert(plain(raw) == (plain(inner) && plain_expr(expression)));
    assert forall|p: (Trace, bool)| #[trigger]
        deep_paths(extend(inner, variable, expression)).contains(p) implies deep_paths(
        inner,
    ).contains(p) || expr_paths(expression).contains(p) by {
        assert(deep_paths(raw).contains(p));
    }
}

proof fn lemma_wrappers_plain(
    inner: Plan,
    orders: Seq<OrderExpr>,
    start: usize,
    length: Option<usize>,
    threshold: nat,
)
    ensures
        deep_paths(order_by(inner, orders)).subset_of(deep_paths(inner)),
        deep_paths(distinct(inner)).subset_of(deep_paths(inner)),
        deep_paths(reduced(inner)).subset_of(deep_paths(inner)),
        deep_paths(slice(inner, start, length)).subset_of(deep_paths(inner)),
        plain(inner) ==> plain(order_by(inner, orders)) && plain(distinct(inner)) && plain(
            reduced(inner),
        ) && plain(slice(inner, start, length)),
{
    lemma_wrappers_tamer(inner, seq![], truth(true), orders, start, length, threshold);
    assert(plain((Plan::OrderBy { inner: Box::new(inner), expression: orders })) == plain(inner));
    assert(plain((Plan::Distinct { inner: Box::new(inner) })) == plain(inner));
    assert(plain((Plan::Reduced { inner: Box::new(inner) })) == plain(inner));
    assert(plain((Plan::Slice { inner: Box::new(inner), start, length })) == plain(inner));
}

/// A join with the filters moved.
#[verifier::spinoff_prover]
proof fn lemma_join_pushed(
    left: Plan,
    right: Plan,
    keys: Seq<Seq<char>>,
    filters: Seq<Expr>,
    types: Types,
    threshold: nat,
)
    requires
        forall|f: Seq<Expr>| stays_plain(#[trigger] push(left, f, types), left, f),
        forall|f: Seq<Expr>| stays_plain(#[trigger] push(right, f, types), right, f),
    ensures
        stays_plain(
            push(
                (Plan::Join { left: Box::new(left), right: Box::new(right), keys }),
                filters,
                types,
            ),
            (Plan::Join { left: Box::new(left), right: Box::new(right), keys }),
            filters,
        ),
{
    reveal(stays_plain);
    let plan = Plan::Join { left: Box::new(left), right: Box::new(right), keys };
    let (lt, rt) = (infer(left, types), infer(right, types));
    let (a, b) = (bound_filters(filters, lt), bound_filters(filters, rt));
    let c = doubly_open_filters(filters, lt, rt);
    lemma_some_filters(filters, |f: Expr| all_bound(f, lt));
    lemma_some_true(filters, |f: Expr| all_bound(f, lt));
    lemma_some_filters(filters, |f: Expr| all_bound(f, rt));
    lemma_some_true(filters, |f: Expr| all_bound(f, rt));
    lemma_some_filters(filters, |f: Expr| !all_bound(f, lt) && !all_bound(f, rt));
    lemma_some_true(filters, |f: Expr| !all_bound(f, lt) && !all_bound(f, rt));
    let (l, r) = (push(left, a, types), push(right, b, types));
    let j = join(l, r, keys);
    let new = push(plan, filters, types);
    lemma_join_plain(l, r, keys, threshold);
    lemma_filter_plain(j, c, threshold);
    assert(new == filter(j, and_all(c)));
    assert(plain(plan) == (plain(left) && plain(right)));
    assert forall|p: (Trace, bool)| #[trigger] deep_paths(new).contains(p) implies deep_paths(
        plan,
    ).contains(p) || all_expr_paths(filters).contains(p) by {
        if deep_paths(j).contains(p) {
            if deep_paths(l).contains(p) {
                assert(deep_paths(left).contains(p) || all_expr_paths(a).contains(p));
            } else if deep_paths(r).contains(p) {
                assert(deep_paths(right).contains(p) || all_expr_paths(b).contains(p));
            } else {
                let q = (p.0, false);
                lemma_all_marked(a, q);
                lemma_all_marked(b, q);
                assert(deep_paths(l).contains(q) && deep_paths(r).contains(q));
                assert(deep_paths(left).contains(q) && deep_paths(right).contains(q));
            }
        } else {
            assert(all_expr_paths(c).contains(p));
        }
    }
}

#[verifier::spinoff_prover]
proof fn lemma_lateral_pushed(
    left: Plan,
    right: Plan,
    filters: Seq<Expr>,
    types: Types,
    threshold: nat,
)
    requires
        forall|f: Seq<Expr>| stays_plain(#[trigger] push(left, f, types), left, f),
        forall|f: Seq<Expr>, t: Types| stays_plain(#[trigger] push(right, f, t), right, f),
    ensures
        stays_plain(
            push((Plan::Lateral { left: Box::new(left), right: Box::new(right) }), filters, types),
            (Plan::Lateral { left: Box::new(left), right: Box::new(right) }),
            filters,
        ),
{
    reveal(stays_plain);
    let plan = Plan::Lateral { left: Box::new(left), right: Box::new(right) };
    let lt = infer(left, types);
    let (a, b) = (bound_filters(filters, lt), open_filters(filters, lt));
    lemma_some_filters(filters, |f: Expr| all_bound(f, lt));
    lemma_some_true(filters, |f: Expr| all_bound(f, lt));
    lemma_some_filters(filters, |f: Expr| !all_bound(f, lt));
    lemma_some_true(filters, |f: Expr| !all_bound(f, lt));
    let (l, r) = (push(left, a, types), push(right, b, lt));
    let new = push(plan, filters, types);
    lemma_filter_out_plain(l, r, threshold);
    assert(new == lateral_filter_out(l, r));
    assert(plain(plan) == (plain(left) && plain(right) && hides_nothing(right)));
    if plain(plan) && all_plain_exprs(filters) {
        assert(all_plain_exprs(b));
        assert forall|v: Seq<char>| !#[trigger] hidden_variables(r).contains(v) by {
            if hidden_variables(r).contains(v) {
                let p = (Trace::Hidden(v), true);
                lemma_plain_expr_paths(Expr::And(b));
                assert(expr_paths(Expr::And(b)) == all_expr_paths(b));
                assert(deep_paths(r).contains(p));
                assert(deep_paths(right).contains(p));
                assert(hidden_variables(right).contains(v));
            }
        }
        assert(hides_nothing(r));
    }
    assert forall|p: (Trace, bool)| #[trigger] deep_paths(new).contains(p) implies deep_paths(
        plan,
    ).contains(p) || all_expr_paths(filters).contains(p) by {
        assert(deep_paths(l).union(deep_paths(r)).contains(p));
        if deep_paths(l).contains(p) {
            assert(deep_paths(left).contains(p) || all_expr_paths(a).contains(p));
        } else {
            assert(deep_paths(right).contains(p) || all_expr_paths(b).contains(p));
        }
    }
}

#[verifier::spinoff_prover]
proof fn lemma_left_join_pushed(
    left: Plan,
    right: Plan,
    expression: Expr,
    keys: Seq<Seq<char>>,
    filters: Seq<Expr>,
    types: Types,
    threshold: nat,
)
    requires
        forall|f: Seq<Expr>| stays_plain(#[trigger] push(left, f, types), left, f),
        forall|f: Seq<Expr>| stays_plain(#[trigger] push(right, f, types), right, f),
    ensures
        stays_plain(
            push(
                (Plan::LeftJoin {
                    left: Box::new(left),
                    right: Box::new(right),
                    expression,
                    keys,
                }),
                filters,
                types,
            ),
            (Plan::LeftJoin { left: Box::new(left), right: Box::new(right), expression, keys }),
            filters,
        ),
{
    reveal(stays_plain);
    let plan = Plan::LeftJoin { left: Box::new(left), right: Box::new(right), expression, keys };
    let lt = infer(left, types);
    let moves = is_right_condition(expression, lt, infer(right, types));
    let (a, b) = (bound_filters(filters, lt), open_filters(filters, lt));
    let c = if moves {
        seq![expression]
    } else {
        seq![]
    };
    let e = if moves {
        truth(true)
    } else {
        expression
    };
    lemma_some_filters(filters, |f: Expr| all_bound(f, lt));
    lemma_some_true(filters, |f: Expr| all_bound(f, lt));
    lemma_some_filters(filters, |f: Expr| !all_bound(f, lt));
    lemma_some_true(filters, |f: Expr| !all_bound(f, lt));
    let (l, r) = (push(left, a, types), push(right, c, types));
    let j = left_join(l, r, e, keys);
    let new = push(plan, filters, types);
    lemma_left_join_plain(l, r, e, keys, threshold);
    lemma_filter_plain(j, b, threshold);
    assert(new == filter(j, and_all(b)));
    assert forall|p: (Trace, bool)| #[trigger] deep_paths(new).contains(p) implies deep_paths(
        plan,
    ).contains(p) || all_expr_paths(filters).contains(p) by {
        if deep_paths(j).contains(p) {
            if deep_paths(l).contains(p) {
                assert(deep_paths(left).contains(p) || all_expr_paths(a).contains(p));
            } else if deep_paths(r).contains(p) {
                if all_expr_paths(c).contains(p) {
                    assert(c.len() == 1 && c[0] == expression);
                    assert(expr_paths(expression).contains(p));
                } else {
                    assert(deep_paths(right).contains(p));
                }
            } else if expr_paths(e).contains(p) {
                assert(!moves);
            } else {
                let q = (p.0, false);
                lemma_all_marked(a, q);
                lemma_all_marked(c, q);
                assert(deep_paths(l).contains(q) && deep_paths(r).contains(q));
                assert(deep_paths(left).contains(q) && deep_paths(right).contains(q));
            }
        } else {
            assert(all_expr_paths(b).contains(p));
        }
    }
}

#[verifier::spinoff_prover]
proof fn lemma_extend_pushed(
    inner: Plan,
    variable: Seq<char>,
    expression: Expr,
    filters: Seq<Expr>,
    types: Types,
    threshold: nat,
)
    requires
        forall|f: Seq<Expr>| stays_plain(#[trigger] push(inner, f, types), inner, f),
    ensures
        stays_plain(
            push(
                (Plan::Extend { inner: Box::new(inner), variable, expression }),
                filters,
                types,
            ),
            (Plan::Extend { inner: Box::new(inner), variable, expression }),
            filters,
        ),
{
    reveal(stays_plain);
    let plan = Plan::Extend { inner: Box::new(inner), variable, expression };
    let (a, b) = (filters_without(filters, variable), filters_with(filters, variable));
    lemma_some_filters(filters, |f: Expr| !expr_variables(f).contains(variable));
    lemma_some_filters(filters, |f: Expr| expr_variables(f).contains(variable));
    let i = push(inner, a, types);
    let j = extend(i, variable, expression);
    let new = push(plan, filters, types);
    lemma_extend_plain(i, variable, expression, threshold);
    lemma_filter_plain(j, b, threshold);
    assert(new == filter(j, and_all(b)));
    assert(plain(plan) == (plain(inner) && plain_expr(expression)));
    assert forall|p: (Trace, bool)| #[trigger] deep_paths(new).contains(p) implies deep_paths(
        plan,
    ).contains(p) || all_expr_paths(filters).contains(p) by {
        if deep_paths(j).contains(p) {
            if deep_paths(i).contains(p) {
                assert(deep_paths(inner).contains(p) || all_expr_paths(a).contains(p));
            } else {
                assert(expr_paths(expression).contains(p));
            }
        } else {
            assert(all_expr_paths(b).contains(p));
        }
    }
}

proof fn lemma_minus_pushed(
    left: Plan,
    right: Plan,
    keys: Seq<Seq<char>>,
    filters: Seq<Expr>,
    types: Types,
    threshold: nat,
)
    requires
        stays_plain(push(left, filters, types), left, filters),
        stays_plain(push(right, seq![], types), right, seq![]),
    ensures
        stays_plain(
            push(
                (Plan::Minus { left: Box::new(left), right: Box::new(right), keys }),
                filters,
                types,
            ),
            (Plan::Minus { left: Box::new(left), right: Box::new(right), keys }),
            filters,
        ),
{
    reveal(stays_plain);
    let plan = Plan::Minus { left: Box::new(left), right: Box::new(right), keys };
    let none = Seq::<Expr>::empty();
    let (l, r) = (push(left, filters, types), push(right, none, types));
    let new = push(plan, filters, types);
    lemma_minus_plain(l, r, keys, threshold);
    assert(new == minus(l, r, keys));
    assert(all_plain_exprs(none));
    assert(plain(plan) == (plain(left) && plain(right)));
    assert forall|p: (Trace, bool)| #[trigger] deep_paths(new).contains(p) implies deep_paths(
        plan,
    ).contains(p) || all_expr_paths(filters).contains(p) by {
        if !deep_paths(l).contains(p) {
            assert(deep_paths(r).contains(p));
            assert(!all_expr_paths(none).contains(p));
            assert(deep_paths(right).contains(p));
        }
    }
}

proof fn lemma_filter_pushed(new: Plan, inner: Plan, expression: Expr, filters: Seq<Expr>)
    requires
        stays_plain(new, inner, added_filters(filters, expression)),
    ensures
        stays_plain(new, (Plan::Filter { inner: Box::new(inner), expression }), filters),
{
    reveal(stays_plain);
    let plan = Plan::Filter { inner: Box::new(inner), expression };
    lemma_added_plain(filters, expression);
    assert(plain(plan) == (plain(inner) && plain_expr(expression)));
    let all = added_filters(filters, expression);
    assert forall|p: (Trace, bool)| #[trigger] deep_paths(new).contains(p) implies deep_paths(
        plan,
    ).contains(p) || all_expr_paths(filters).contains(p) by {
        assert(deep_paths(inner).contains(p) || all_expr_paths(all).contains(p));
    }
}

/// Whether a plan is made of another one without filters, joins and projections.
spec fn wraps(plan: Plan, inner: Plan) -> bool {
    &&& deep_paths(plan) == deep_paths(inner)
    &&& plain(plan) ==> plain(inner)
    &&& !is_bare(plan)
}

proof fn lemma_wraps(plan: Plan, inner: Plan)
    requires
        is_wrapper(plan, inner),
    ensures
        wraps(plan, inner),
{
    assert(worked().contains((Trace::Worked, false)));
    assert(deep_paths(plan) =~= deep_paths(inner));
}

/// An operator that filters do not pass.
proof fn lemma_barrier_pushed(wrapped: Plan, plan: Plan, filters: Seq<Expr>, threshold: nat)
    requires
        stays_plain(wrapped, plan, seq![]),
    ensures
        stays_plain(filter(wrapped, and_all(filters)), plan, filters),
{
    reveal(stays_plain);
    let none = Seq::<Expr>::empty();
    let new = filter(wrapped, and_all(filters));
    lemma_filter_plain(wrapped, filters, threshold);
    assert(all_plain_exprs(none));
    assert forall|p: (Trace, bool)| #[trigger] deep_paths(new).contains(p) implies deep_paths(
        plan,
    ).contains(p) || all_expr_paths(filters).contains(p) by {
        if deep_paths(wrapped).contains(p) {
            assert(!all_expr_paths(none).contains(p));
        }
    }
}

/// A projection or grouping, above which filters stay.
proof fn lemma_shown_pushed(
    wrapped: Plan,
    pushed: Plan,
    plan: Plan,
    inner: Plan,
    variables: Seq<Seq<char>>,
)
    requires
        stays_plain(pushed, inner, seq![]),
        plan_variables(pushed).subset_of(plan_variables(inner)),
        deep_paths(wrapped).subset_of(deep_paths(pushed).union(all_hidden(hidden(
            pushed,
            variables,
        )))),
        deep_paths(plan) == deep_paths(inner).union(all_hidden(hidden(inner, variables))),
        plain(plan) && plain(pushed) ==> plain(wrapped),
        plain(plan) ==> plain(inner),
        !is_bare(plan),
    ensures
        stays_plain(wrapped, plan, seq![]),
{
    reveal(stays_plain);
    let none = Seq::<Expr>::empty();
    assert(all_plain_exprs(none));
    assert forall|p: (Trace, bool)| #[trigger] deep_paths(wrapped).contains(p) implies deep_paths(
        plan,
    ).contains(p) || all_expr_paths(none).contains(p) by {
        if deep_paths(pushed).contains(p) {
            assert(deep_paths(inner).contains(p) || all_expr_paths(none).contains(p));
        }
    }
}

/// An operator that filters pass.
proof fn lemma_wrapper_pushed(
    wrapped: Plan,
    pushed: Plan,
    plan: Plan,
    inner: Plan,
    filters: Seq<Expr>,
)
    requires
        stays_plain(pushed, inner, filters),
        deep_paths(wrapped).subset_of(deep_paths(pushed)),
        plain(plan) && plain(pushed) ==> plain(wrapped),
        wraps(plan, inner),
    ensures
        stays_plain(wrapped, plan, filters),
{
    reveal(stays_plain);
    assert forall|p: (Trace, bool)| #[trigger] deep_paths(wrapped).contains(p) implies deep_paths(
        plan,
    ).contains(p) || all_expr_paths(filters).contains(p) by {
        assert(deep_paths(pushed).contains(p));
    }
}

/// Moving filters keeps a plan plain, and follows no new paths.
#[verifier::spinoff_prover]
#[verifier::rlimit(40)]
proof fn lemma_push_plain(plan: Plan, filters: Seq<Expr>, types: Types, threshold: nat)
    ensures
        stays_plain(push(plan, filters, types), plan, filters),
    decreases plan,
{
    let none = Seq::<Expr>::empty();
    match plan {
        Plan::QuadPattern { .. }
        | Plan::Path { .. }
        | Plan::Graph { .. }
        | Plan::Values { .. }
        | Plan::Service { .. } => {
            lemma_filter_plain(plan, filters, threshold);
        },
        Plan::Join { left, right, keys } => {
            assert forall|f: Seq<Expr>| stays_plain(#[trigger] push(*left, f, types), *left, f) by {
                lemma_push_plain(*left, f, types, threshold);
            }
            assert forall|f: Seq<Expr>| stays_plain(
                #[trigger] push(*right, f, types),
                *right,
                f,
            ) by {
                lemma_push_plain(*right, f, types, threshold);
            }
            lemma_join_pushed(*left, *right, keys, filters, types, threshold);
        },
        Plan::Lateral { left, right } => {
            assert forall|f: Seq<Expr>| stays_plain(#[trigger] push(*left, f, types), *left, f) by {
                lemma_push_plain(*left, f, types, threshold);
            }
            assert forall|f: Seq<Expr>, t: Types| stays_plain(
                #[trigger] push(*right, f, t),
                *right,
                f,
            ) by {
                lemma_push_plain(*right, f, t, threshold);
            }
            lemma_lateral_pushed(*left, *right, filters, types, threshold);
        },
        Plan::LeftJoin { left, right, expression, keys } => {
            assert forall|f: Seq<Expr>| stays_plain(#[trigger] push(*left, f, types), *left, f) by {
                lemma_push_plain(*left, f, types, threshold);
            }
            assert forall|f: Seq<Expr>| stays_plain(
                #[trigger] push(*right, f, types),
                *right,
                f,
            ) by {
                lemma_push_plain(*right, f, types, threshold);
            }
            lemma_left_join_pushed(*left, *right, expression, keys, filters, types, threshold);
        },
        Plan::Minus { left, right, keys } => {
            lemma_push_plain(*left, filters, types, threshold);
            lemma_push_plain(*right, none, types, threshold);
            lemma_minus_pushed(*left, *right, keys, filters, types, threshold);
        },
        Plan::Extend { inner, variable, expression } => {
            assert forall|f: Seq<Expr>| stays_plain(
                #[trigger] push(*inner, f, types),
                *inner,
                f,
            ) by {
                lemma_push_plain(*inner, f, types, threshold);
            }
            lemma_extend_pushed(*inner, variable, expression, filters, types, threshold);
        },
        Plan::Filter { inner, expression } => {
            let new = push(plan, filters, types);
            lemma_push_plain(*inner, added_filters(filters, expression), types, threshold);
            lemma_filter_pushed(new, *inner, expression, filters);
        },
        Plan::Union { inner } => {
            let all = push_all(inner, filters, types);
            assert forall|i: int| 0 <= i < all.len() implies stays_plain(
                #[trigger] all[i],
                inner[i],
                filters,
            ) by {
                lemma_push_plain(inner[i], filters, types, threshold);
            }
            lemma_union_plain(all, inner, filters, threshold);
        },
        Plan::Slice { inner, start, length } => {
            lemma_push_plain(*inner, none, types, threshold);
            let i = push(*inner, none, types);
            lemma_wrappers_plain(i, seq![], start, length, threshold);
            lemma_wraps(plan, *inner);
            lemma_wrapper_pushed(slice(i, start, length), i, plan, *inner, none);
            lemma_barrier_pushed(slice(i, start, length), plan, filters, threshold);
        },
        Plan::Distinct { inner } | Plan::Reduced { inner } => {
            lemma_push_plain(*inner, filters, types, threshold);
            let i = push(*inner, filters, types);
            lemma_wrappers_plain(i, seq![], 0, None, threshold);
            lemma_wraps(plan, *inner);
            lemma_wrapper_pushed(push(plan, filters, types), i, plan, *inner, filters);
        },
        Plan::OrderBy { inner, expression } => {
            lemma_push_plain(*inner, filters, types, threshold);
            let i = push(*inner, filters, types);
            lemma_wrappers_plain(i, expression, 0, None, threshold);
            lemma_wraps(plan, *inner);
            lemma_wrapper_pushed(push(plan, filters, types), i, plan, *inner, filters);
        },
        Plan::Project { inner, variables } => {
            lemma_push_plain(*inner, none, types, threshold);
            let i = push(*inner, none, types);
            lemma_push_variables(*inner, none, types);
            assert(exprs_variables(none) =~= Set::<Seq<char>>::empty());
            assert(deep_paths(plan) =~= deep_paths(*inner).union(
                all_hidden(hidden(*inner, variables)),
            ));
            assert(worked().contains((Trace::Worked, false)));
            lemma_shown_pushed(project(i, variables), i, plan, *inner, variables);
            lemma_barrier_pushed(project(i, variables), plan, filters, threshold);
        },
        Plan::Group { inner, variables, aggregates } => {
            lemma_push_plain(*inner, none, types, threshold);
            let i = push(*inner, none, types);
            lemma_push_variables(*inner, none, types);
            assert(exprs_variables(none) =~= Set::<Seq<char>>::empty());
            lemma_group_tamer(i, variables, aggregates, threshold);
            assert(deep_paths(plan) =~= deep_paths(*inner).union(
                all_hidden(hidden(*inner, variables)),
            ));
            assert(worked().contains((Trace::Worked, false)));
            lemma_shown_pushed(group(i, variables, aggregates), i, plan, *inner, variables);
            lemma_barrier_pushed(group(i, variables, aggregates), plan, filters, threshold);
        },
    }
}

proof fn lemma_union_plain(all: Seq<Plan>, inner: Seq<Plan>, filters: Seq<Expr>, threshold: nat)
    requires
        all.len() == inner.len(),
        forall|i: int| 0 <= i < all.len() ==> stays_plain(#[trigger] all[i], inner[i], filters),
    ensures
        stays_plain(union_all(all), (Plan::Union { inner }), filters),
{
    reveal(stays_plain);
    let raw = Plan::Union { inner: all };
    let old = Plan::Union { inner };
    lemma_union_tamer(all, threshold);
    assert forall|p: (Trace, bool)| #[trigger] deep_paths(union_all(all)).contains(p) implies deep_paths(
        old,
    ).contains(p) || all_expr_paths(filters).contains(p) by {
        assert(deep_paths(raw).contains(p));
        assert(all_paths(all).contains(p));
        let i = choose|i: int| 0 <= i < all.len() && deep_paths(#[trigger] all[i]).contains(p);
        assert(stays_plain(all[i], inner[i], filters));
        if !all_expr_paths(filters).contains(p) {
            assert(deep_paths(inner[i]).contains(p));
            assert(all_paths(inner).contains(p));
        }
    }
    if is_bare(old) && all_true(filters) {
        let w = (Trace::Worked, false);
        if !is_bare(union_all(all)) {
            assert(plan_paths(raw).contains(w));
            assert(all_paths(all).contains(w));
            let i = choose|i: int| 0 <= i < all.len() && plan_paths(#[trigger] all[i]).contains(w);
            assert(stays_plain(all[i], inner[i], filters));
            assert(plan_paths(inner[i]).contains(w));
            assert(all_paths(inner).contains(w));
        }
    }
    if plain(old) && all_plain_exprs(filters) {
        assert(all_plain(inner));
        assert forall|i: int| 0 <= i < all.len() implies plain(#[trigger] all[i]) by {
            assert(stays_plain(all[i], inner[i], filters));
            assert(plain(inner[i]));
        }
        assert(all_plain(all));
        assert(plain(raw));
    }
}

/// An optimized plan uses no more than before, and a plain one stays plain.
proof fn lemma_optimized_plain(
    world: World,
    plan: Plan,
    types: Types,
    rec: Reordering,
    threshold: nat,
)
    requires
        good(world, rec, threshold),
        distinct_variables(types),
    ensures
        ({
            let new = optimize_with(rec)(plan, types);
            &&& plan_variables(new).subset_of(plan_variables(plan))
            &&& deep_paths(new).subset_of(deep_paths(plan))
            &&& plain(plan) ==> plain(new)
        }),
{
    reveal(stays_plain);
    let n = normalize(plan, types);
    let r = rec(n, types);
    let none = Seq::<Expr>::empty();
    lemma_normalize_tamer(plan, types, threshold);
    assert(better(world, r, n, types, threshold));
    lemma_push_variables(r, none, types);
    assert(exprs_variables(none) =~= Set::<Seq<char>>::empty());
    lemma_push_plain(r, none, types, threshold);
    assert(all_expr_paths(none) =~= Set::<(Trace, bool)>::empty());
    assert(all_plain_exprs(none));
}

/// An optimized plain plan has the same solutions.
proof fn lemma_optimized_eval(
    world: World,
    plan: Plan,
    types: Types,
    rec: Reordering,
    s: Solution,
    outside: Names,
    threshold: nat,
)
    requires
        regular(world),
        good(world, rec, threshold),
        plain(plan),
        hidden_variables(plan).disjoint(outside),
        each_once(world, plan_paths(plan)),
        placed(s, types, outside),
    ensures
        same(eval(world, optimize_with(rec)(plan, types), s), eval(world, plan, s)),
{
    let n = normalize(plan, types);
    let r = rec(n, types);
    let none = Seq::<Expr>::empty();
    let (sure, late) = (Set::<Seq<char>>::empty(), Set::<Seq<char>>::empty());
    lemma_plain_scoped(plan, sure, outside, late, threshold);
    lemma_normalize_tamer(plan, types, threshold);
    lemma_normalize(world, plan, types, s, sure, outside, late, threshold);
    assert(better(world, r, n, types, threshold));
    lemma_once_less(world, plan_paths(n), plan_paths(plan));
    assert(hidden_variables(n).subset_of(hidden_variables(plan)));
    assert(hidden_variables(r).subset_of(hidden_variables(n)));
    lemma_plain_scoped(n, sure, outside, late, threshold);
    assert(preserved(world, r, n, types, s, sure, outside, late, threshold));
    lemma_plain_scoped(r, sure, outside, late, threshold);
    lemma_scoped_hygienic(r, sure, outside, late, threshold);
    assert(all_hygienic_exprs(none, outside));
    law_push_preserves(world, r, none, types, s, outside);
    lemma_nothing_pushed(world, eval(world, r, s), none);
}

/// An `EXISTS` whose scopes are in order and whose plan is optimized is plain.
proof fn lemma_correlated_plain(
    inner: Plan,
    types: Types,
    limits: Limits,
    sure: Names,
    outside: Names,
)
    requires
        highly_correlated(inner, types, limits),
        scoped_expr(
            Expr::Exists(Box::new(inner)),
            sure,
            outside,
            correlation_threshold(limits),
        ),
    ensures
        plain(inner),
        hidden_variables(inner).disjoint(outside),
{
    lemma_plan_finite(inner);
    lemma_len_subset(outer_variables(inner, types), plan_variables(inner));
    assert forall|v: Seq<char>| #[trigger] hidden_variables(inner).contains(v) implies
        !outside.contains(v) by {
        lemma_scoped_hidden(inner, sure, outside, set![], correlation_threshold(limits), v);
    }
}

/// An `EXISTS` whose plan is optimized uses no more than before.
proof fn lemma_exists_optimized(
    world: World,
    inner: Plan,
    types: Types,
    limits: Limits,
    rec: Reordering,
)
    requires
        good(world, rec, correlation_threshold(limits)),
        distinct_variables(types),
        highly_correlated(inner, types, limits),
    ensures
        tamer_expr(
            Expr::Exists(Box::new(optimize_with(rec)(inner, types))),
            Expr::Exists(Box::new(inner)),
            correlation_threshold(limits),
        ),
{
    let new = optimize_with(rec)(inner, types);
    let (a, b) = (Expr::Exists(Box::new(new)), Expr::Exists(Box::new(inner)));
    lemma_optimized_plain(world, inner, types, rec, correlation_threshold(limits));
    assert forall|sure: Names, outside: Names| scoped_expr(b, sure, outside, correlation_threshold(limits)) implies
        #[trigger] scoped_expr(a, sure, outside, correlation_threshold(limits)) by {
        lemma_correlated_plain(inner, types, limits, sure, outside);
        assert(hidden_variables(new).subset_of(hidden_variables(inner))) by {
            assert forall|v: Seq<char>| #[trigger] hidden_variables(new).contains(v) implies
                hidden_variables(inner).contains(v) by {
                assert(deep_paths(new).contains((Trace::Hidden(v), true)));
            }
        }
        lemma_plain_scoped(new, sure, outside, set![], correlation_threshold(limits));
    }
    assert(expr_paths(a).subset_of(expr_paths(b))) by {
        assert forall|p: (Trace, bool)| #[trigger] expr_paths(a).contains(p) implies expr_paths(
            b,
        ).contains(p) by {
            assert(deep_paths(new).contains(p));
        }
    }
    lemma_tamer_simple(a, b, correlation_threshold(limits));
}

/// Optimizing the plans inside an expression keeps the scopes in order.
#[verifier::spinoff_prover]
#[verifier::rlimit(40)]
pub proof fn lemma_reorder_exists_tamer(
    world: World,
    expression: Expr,
    types: Types,
    limits: Limits,
    rec: Reordering,
)
    requires
        good(world, rec, correlation_threshold(limits)),
        distinct_variables(types),
    ensures
        tamer_expr(
            reorder_exists(expression, types, limits, optimize_with(rec)),
            expression,
            correlation_threshold(limits),
        ),
    decreases expression,
{
    let optimized = optimize_with(rec);
    let new = reorder_exists(expression, types, limits, optimized);
    match expression {
        Expr::NamedNode(_) | Expr::Literal(_) | Expr::Variable(_) | Expr::Bound(_) => {},
        Expr::Or(inner)
        | Expr::And(inner)
        | Expr::Coalesce(inner)
        | Expr::FunctionCall(_, inner) => {
            let all = reorder_all_exists(inner, types, limits, optimized);
            assert forall|i: int| 0 <= i < all.len() implies tamer_expr(
                #[trigger] all[i],
                inner[i],
                correlation_threshold(limits),
            ) by {
                lemma_reorder_exists_tamer(world, inner[i], types, limits, rec);
            }
            assert(all_tamer_exprs(all, inner, correlation_threshold(limits)));
            lemma_list_tamer(all, inner, correlation_threshold(limits));
            match expression {
                Expr::Or(_) => {
                    lemma_or_tamer(all, correlation_threshold(limits));
                    lemma_tamer_expr_trans(new, Expr::Or(all), expression, correlation_threshold(limits));
                },
                Expr::And(_) => {
                    lemma_and_tamer(all, correlation_threshold(limits));
                    lemma_tamer_expr_trans(new, Expr::And(all), expression, correlation_threshold(limits));
                },
                Expr::FunctionCall(name, _) => {
                    lemma_call_tamer(name, all, inner, correlation_threshold(limits));
                },
                _ => {},
            }
        },
        Expr::Equal(left, right) => {
            let l = reorder_exists(*left, types, limits, optimized);
            let r = reorder_exists(*right, types, limits, optimized);
            lemma_reorder_exists_tamer(world, *left, types, limits, rec);
            lemma_reorder_exists_tamer(world, *right, types, limits, rec);
            lemma_equal_tamer(l, r, correlation_threshold(limits));
            let raw = Expr::Equal(Box::new(l), Box::new(r));
            assert(parts_tamer(raw, expression, correlation_threshold(limits)));
            lemma_parts_tamer(raw, expression, correlation_threshold(limits));
            lemma_tamer_expr_trans(new, raw, expression, correlation_threshold(limits));
        },
        Expr::SameTerm(left, right) => {
            let l = reorder_exists(*left, types, limits, optimized);
            let r = reorder_exists(*right, types, limits, optimized);
            lemma_reorder_exists_tamer(world, *left, types, limits, rec);
            lemma_reorder_exists_tamer(world, *right, types, limits, rec);
            lemma_equal_tamer(l, r, correlation_threshold(limits));
            let raw = Expr::SameTerm(Box::new(l), Box::new(r));
            assert(parts_tamer(raw, expression, correlation_threshold(limits)));
            lemma_parts_tamer(raw, expression, correlation_threshold(limits));
            lemma_tamer_expr_trans(new, raw, expression, correlation_threshold(limits));
        },
        Expr::Greater(left, right)
        | Expr::GreaterOrEqual(left, right)
        | Expr::Less(left, right)
        | Expr::LessOrEqual(left, right)
        | Expr::Add(left, right)
        | Expr::Subtract(left, right)
        | Expr::Multiply(left, right)
        | Expr::Divide(left, right) => {
            lemma_reorder_exists_tamer(world, *left, types, limits, rec);
            lemma_reorder_exists_tamer(world, *right, types, limits, rec);
            assert(parts_tamer(new, expression, correlation_threshold(limits)));
            lemma_parts_tamer(new, expression, correlation_threshold(limits));
        },
        Expr::UnaryPlus(inner) | Expr::UnaryMinus(inner) => {
            lemma_reorder_exists_tamer(world, *inner, types, limits, rec);
            assert(parts_tamer(new, expression, correlation_threshold(limits)));
            lemma_parts_tamer(new, expression, correlation_threshold(limits));
        },
        Expr::Not(inner) => {
            let i = reorder_exists(*inner, types, limits, optimized);
            lemma_reorder_exists_tamer(world, *inner, types, limits, rec);
            let raw = Expr::Not(Box::new(i));
            assert(parts_tamer(raw, expression, correlation_threshold(limits)));
            lemma_parts_tamer(raw, expression, correlation_threshold(limits));
            lemma_not_tamer(i, correlation_threshold(limits));
            lemma_tamer_expr_trans(new, raw, expression, correlation_threshold(limits));
        },
        Expr::If(condition, then_case, else_case) => {
            let a = reorder_exists(*condition, types, limits, optimized);
            let b = reorder_exists(*then_case, types, limits, optimized);
            let c = reorder_exists(*else_case, types, limits, optimized);
            lemma_reorder_exists_tamer(world, *condition, types, limits, rec);
            lemma_reorder_exists_tamer(world, *then_case, types, limits, rec);
            lemma_reorder_exists_tamer(world, *else_case, types, limits, rec);
            let raw = Expr::If(Box::new(a), Box::new(b), Box::new(c));
            assert(parts_tamer(raw, expression, correlation_threshold(limits)));
            lemma_parts_tamer(raw, expression, correlation_threshold(limits));
            lemma_if_tamer(a, b, c, correlation_threshold(limits));
            lemma_tamer_expr_trans(new, raw, expression, correlation_threshold(limits));
        },
        Expr::Exists(inner) => {
            lemma_exists_tamer(*inner, correlation_threshold(limits));
            if highly_correlated(*inner, types, limits) {
                let i = optimized(*inner, types);
                lemma_exists_optimized(world, *inner, types, limits, rec);
                lemma_exists_tamer(i, correlation_threshold(limits));
                lemma_tamer_expr_trans(new, Expr::Exists(Box::new(i)), expression, correlation_threshold(limits));
            }
        },
    }
}

/// Optimizing the plans inside an expression keeps its value.
#[verifier::spinoff_prover]
#[verifier::rlimit(40)]
pub proof fn lemma_reorder_exists(
    world: World,
    expression: Expr,
    types: Types,
    limits: Limits,
    rec: Reordering,
    s: Solution,
    sure: Names,
    outside: Names,
)
    requires
        regular(world),
        good(world, rec, correlation_threshold(limits)),
        placed(s, types, outside),
        scoped_expr(expression, sure, outside, correlation_threshold(limits)),
        each_once(world, expr_paths(expression)),
    ensures
        value(
            world,
            reorder_exists(expression, types, limits, optimize_with(rec)),
            s,
        ) == value(world, expression, s),
    decreases expression,
{
    let optimized = optimize_with(rec);
    let paths = expr_paths(expression);
    match expression {
        Expr::NamedNode(_) | Expr::Literal(_) | Expr::Variable(_) | Expr::Bound(_) => {},
        Expr::Or(inner)
        | Expr::And(inner)
        | Expr::Coalesce(inner)
        | Expr::FunctionCall(_, inner) => {
            let all = reorder_all_exists(inner, types, limits, optimized);
            assert(all_scoped_exprs(inner, sure, outside, correlation_threshold(limits)));
            assert(paths == all_expr_paths(inner));
            assert forall|i: int| 0 <= i < all.len() implies value(world, #[trigger] all[i], s)
                == value(world, inner[i], s) && (proper_expr(inner[i]) ==> proper_expr(all[i])) by {
                assert forall|p: (Trace, bool)| #[trigger] expr_paths(inner[i]).contains(p) implies
                    paths.contains(p) by {
                }
                lemma_once_less(world, expr_paths(inner[i]), paths);
                lemma_reorder_exists(world, inner[i], types, limits, rec, s, sure, outside);
                lemma_reorder_exists_tamer(world, inner[i], types, limits, rec);
            }
            assert(truths(world, all, s) =~= truths(world, inner, s)) by {
                assert forall|i: int| 0 <= i < all.len() implies truths(world, all, s)[i]
                    == truths(world, inner, s)[i] by {
                    assert(value(world, all[i], s) == value(world, inner[i], s));
                }
            }
            assert(values(world, all, s) =~= values(world, inner, s)) by {
                assert forall|i: int| 0 <= i < all.len() implies values(world, all, s)[i]
                    == values(world, inner, s)[i] by {
                    assert(value(world, all[i], s) == value(world, inner[i], s));
                }
            }
            if expression is Or || expression is And {
                assert(all_proper_exprs(inner));
                assert(all_proper_exprs(all)) by {
                    assert forall|i: int| 0 <= i < all.len() implies proper_expr(
                        #[trigger] all[i],
                    ) by {
                        assert(proper_expr(inner[i]));
                    }
                }
                lemma_or_all(world, all, s);
                lemma_and_all(world, all, s);
            }
        },
        Expr::Equal(left, right) | Expr::SameTerm(left, right) => {
            lemma_once_less(world, expr_paths(*left), paths);
            lemma_once_less(world, expr_paths(*right), paths);
            lemma_reorder_exists(world, *left, types, limits, rec, s, sure, outside);
            lemma_reorder_exists(world, *right, types, limits, rec, s, sure, outside);
            lemma_reorder_exists_tamer(world, *left, types, limits, rec);
            lemma_reorder_exists_tamer(world, *right, types, limits, rec);
            let l = reorder_exists(*left, types, limits, optimized);
            let r = reorder_exists(*right, types, limits, optimized);
            if expression is Equal {
                lemma_equal(world, l, r, s);
            }
            lemma_same_term(world, l, r, s);
        },
        Expr::Greater(left, right)
        | Expr::GreaterOrEqual(left, right)
        | Expr::Less(left, right)
        | Expr::LessOrEqual(left, right)
        | Expr::Add(left, right)
        | Expr::Subtract(left, right)
        | Expr::Multiply(left, right)
        | Expr::Divide(left, right) => {
            lemma_once_less(world, expr_paths(*left), paths);
            lemma_once_less(world, expr_paths(*right), paths);
            lemma_reorder_exists(world, *left, types, limits, rec, s, sure, outside);
            lemma_reorder_exists(world, *right, types, limits, rec, s, sure, outside);
        },
        Expr::UnaryPlus(inner) | Expr::UnaryMinus(inner) => {
            lemma_reorder_exists(world, *inner, types, limits, rec, s, sure, outside);
        },
        Expr::Not(inner) => {
            let i = reorder_exists(*inner, types, limits, optimized);
            lemma_reorder_exists(world, *inner, types, limits, rec, s, sure, outside);
            lemma_reorder_exists_tamer(world, *inner, types, limits, rec);
            lemma_not(world, i, s);
        },
        Expr::If(condition, then_case, else_case) => {
            lemma_once_less(world, expr_paths(*condition), paths);
            lemma_once_less(world, expr_paths(*then_case), paths);
            lemma_once_less(world, expr_paths(*else_case), paths);
            lemma_reorder_exists(world, *condition, types, limits, rec, s, sure, outside);
            lemma_reorder_exists(world, *then_case, types, limits, rec, s, sure, outside);
            lemma_reorder_exists(world, *else_case, types, limits, rec, s, sure, outside);
            lemma_if(
                world,
                reorder_exists(*condition, types, limits, optimized),
                reorder_exists(*then_case, types, limits, optimized),
                reorder_exists(*else_case, types, limits, optimized),
                s,
            );
        },
        Expr::Exists(inner) => {
            lemma_exists(world, *inner, s);
            if highly_correlated(*inner, types, limits) {
                let i = optimized(*inner, types);
                assert forall|path: Plan| #[trigger]
                    plan_paths(*inner).contains((Trace::Path(path), true)) && !matches_once(
                    path,
                ) implies (world.atom)(
                    path,
                ).no_duplicates() by {
                    assert(paths.contains((Trace::Path(path), true)));
                }
                lemma_correlated_plain(*inner, types, limits, sure, outside);
                lemma_optimized_eval(world, *inner, types, rec, s, outside, correlation_threshold(limits));
                lemma_same_items(eval(world, i, s), eval(world, *inner, s));
                lemma_exists(world, i, s);
            }
        },
    }
}

} // verus!
