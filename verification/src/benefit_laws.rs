//! What the estimates and the moving of filters are for.

use vstd::prelude::*;

use crate::algebra::{Expr, Plan};
use crate::builders::{and_all, filter, join, left_join, truth};
use crate::estimate::{capped_product, keys_factor, node_bound, plan_size, term_bound};
use crate::limits::Limits;
use crate::lookups::all_bound;
use crate::push_filters::{
    bound_filters, doubly_open_filters, is_right_condition, open_filters, push,
};
use crate::term::{NodePatternView, TermPatternView};
use crate::type_inference::{infer, type_of, Types};
use crate::variables::expr_variables;

verus! {

/// Whether a variable always has a value in some types if it does in others.
pub open spec fn knows_more(more: Types, less: Types) -> bool {
    forall|v: Seq<char>| !(#[trigger] type_of(less, v)).undef ==> !type_of(more, v).undef
}

proof fn lemma_more_bound(pattern: TermPatternView, more: Types, less: Types)
    requires
        knows_more(more, less),
        term_bound(pattern, less),
    ensures
        term_bound(pattern, more),
    decreases pattern,
{
    match pattern {
        TermPatternView::Variable(v) => {
            assert(!type_of(less, v).undef);
        },
        TermPatternView::Triple { subject, predicate, object } => {
            lemma_more_bound(*subject, more, less);
            lemma_more_bound(*object, more, less);
            if let NodePatternView::Variable(v) = predicate {
                assert(!type_of(less, v).undef);
            }
        },
        _ => {},
    }
}

/// A pattern is not expected to have more matches where more variables are known, and
/// to have fewer where its subject or object gets known.
pub proof fn law_known_terms_narrow_patterns(plan: Plan, more: Types, less: Types, limits: Limits)
    requires
        plan is QuadPattern,
        knows_more(more, less),
    ensures
        plan_size(plan, more, limits) <= plan_size(plan, less, limits),
        plan matches Plan::QuadPattern { subject, object, .. } && (term_bound(subject, more)
            && !term_bound(subject, less) || term_bound(object, more) && !term_bound(object, less))
            ==> plan_size(plan, more, limits) < plan_size(plan, less, limits),
{
    if let Plan::QuadPattern { subject, predicate, object, .. } = plan {
        if term_bound(subject, less) {
            lemma_more_bound(subject, more, less);
        }
        if term_bound(object, less) {
            lemma_more_bound(object, more, less);
        }
        if let NodePatternView::Variable(v) = predicate {
            assert(!type_of(less, v).undef ==> !type_of(more, v).undef);
        }
        assert(node_bound(predicate, less) ==> node_bound(predicate, more));
    }
}

proof fn lemma_keys_factor(fewer: nat, more: nat)
    requires
        fewer <= more,
    ensures
        0 < keys_factor(fewer) <= keys_factor(more) <= usize::MAX,
    decreases more,
{
    if more > 0 {
        let f = keys_factor((more - 1) as nat);
        if fewer < more {
            lemma_keys_factor(fewer, (more - 1) as nat);
        } else {
            lemma_keys_factor((more - 1) as nat, (more - 1) as nat);
        }
        assert(f <= 1000 * f);
        assert(0 < keys_factor(more));
    }
}

/// A join with more keys is not expected to be larger.
pub proof fn law_keys_narrow_joins(
    left: Plan,
    right: Plan,
    fewer: Seq<Seq<char>>,
    more: Seq<Seq<char>>,
    types: Types,
    limits: Limits,
)
    requires
        fewer.len() <= more.len(),
    ensures
        plan_size(
            (Plan::Join { left: Box::new(left), right: Box::new(right), keys: more }),
            types,
            limits,
        ) <= plan_size(
            (Plan::Join { left: Box::new(left), right: Box::new(right), keys: fewer }),
            types,
            limits,
        ),
{
    lemma_keys_factor(fewer.len(), more.len());
    let rows = capped_product(plan_size(left, types, limits), plan_size(right, types, limits));
    let (a, b) = (keys_factor(more.len()), keys_factor(fewer.len()));
    assert(rows / a <= rows / b) by (nonlinear_arith)
        requires
            0 < b <= a,
            rows >= 0,
    ;
}

/// Whether all variables of a filter always have a value.
pub open spec fn is_ready(f: Expr, types: Types) -> bool {
    forall|v: Seq<char>| #[trigger] expr_variables(f).contains(v) ==> !type_of(types, v).undef
}

proof fn lemma_filtered_from(filters: Seq<Expr>, keep: spec_fn(Expr) -> bool, f: Expr)
    requires
        filters.filter(keep).contains(f),
    ensures
        filters.contains(f),
    decreases filters.len(),
{
    reveal(Seq::filter);
    if filters.len() > 0 {
        let before = filters.drop_last().filter(keep);
        let i = choose|i: int| 0 <= i < filters.filter(keep).len() && filters.filter(keep)[i] == f;
        if i < before.len() {
            assert(before[i] == f);
            lemma_filtered_from(filters.drop_last(), keep, f);
            let j = choose|j: int| 0 <= j < filters.drop_last().len() && filters.drop_last()[j] == f;
            assert(filters[j] == f);
        } else {
            assert(filters.last() == f);
        }
    }
}

proof fn lemma_filtered(filters: Seq<Expr>, keep: spec_fn(Expr) -> bool)
    ensures
        forall|f: Expr| #[trigger]
            filters.filter(keep).contains(f) <==> filters.contains(f) && keep(f),
        (forall|i: int| 0 <= i < filters.len() ==> !keep(#[trigger] filters[i])) ==> filters.filter(
            keep,
        ) == Seq::<Expr>::empty(),
{
    broadcast use vstd::seq_lib::group_filter_ensures;

    let kept = filters.filter(keep);
    assert forall|f: Expr| #[trigger] kept.contains(f) implies filters.contains(f) && keep(f) by {
        let i = choose|i: int| 0 <= i < kept.len() && kept[i] == f;
        assert(keep(kept[i]));
        lemma_filtered_from(filters, keep, f);
    }
    if forall|i: int| 0 <= i < filters.len() ==> !keep(#[trigger] filters[i]) {
        if kept.len() > 0 {
            assert(kept.contains(kept[0]));
            let i = choose|i: int| 0 <= i < filters.len() && filters[i] == kept[0];
        }
        assert(kept =~= seq![]);
    }
}

/// Filters get below joins: a filter whose variables all have a value on a side of a
/// join gets into that side, whatever the other side does. If each of the filters is
/// ready on one of the sides, none is left above the join.
pub proof fn law_filters_get_below_joins(
    left: Plan,
    right: Plan,
    keys: Seq<Seq<char>>,
    filters: Seq<Expr>,
    types: Types,
)
    ensures
        exists|l: Seq<Expr>, r: Seq<Expr>, rest: Seq<Expr>|
            {
                let whole = Plan::Join { left: Box::new(left), right: Box::new(right), keys };
                let (a, b) = (infer(left, types), infer(right, types));
                &&& push(whole, filters, types) == filter(
                    join(#[trigger] push(left, l, types), #[trigger] push(right, r, types), keys),
                    #[trigger] and_all(rest),
                )
                &&& forall|f: Expr| #[trigger]
                    filters.contains(f) ==> (is_ready(f, a) <==> l.contains(f)) && (is_ready(f, b)
                        <==> r.contains(f)) && (rest.contains(f) <==> !is_ready(f, a) && !is_ready(
                        f,
                        b,
                    ))
                &&& (forall|i: int|
                    0 <= i < filters.len() ==> is_ready(#[trigger] filters[i], a) || is_ready(
                        filters[i],
                        b,
                    )) ==> and_all(rest) == truth(true)
            },
{
    let (a, b) = (infer(left, types), infer(right, types));
    let (l, r) = (bound_filters(filters, a), bound_filters(filters, b));
    let rest = doubly_open_filters(filters, a, b);
    let whole = Plan::Join { left: Box::new(left), right: Box::new(right), keys };
    assert forall|f: Expr, t: Types| #[trigger] all_bound(f, t) == is_ready(f, t) by {
        assert(is_ready(f, t) == all_bound(f, t));
    }
    lemma_filtered(filters, |f: Expr| all_bound(f, a));
    lemma_filtered(filters, |f: Expr| all_bound(f, b));
    lemma_filtered(filters, |f: Expr| !all_bound(f, a) && !all_bound(f, b));
    if forall|i: int|
        0 <= i < filters.len() ==> is_ready(#[trigger] filters[i], a) || is_ready(filters[i], b) {
        assert forall|i: int| 0 <= i < filters.len() implies !(!all_bound(
            #[trigger] filters[i],
            a,
        ) && !all_bound(filters[i], b)) by {
            assert(is_ready(filters[i], a) || is_ready(filters[i], b));
        }
        assert(rest =~= seq![]);
        assert(and_all(rest) == truth(true));
    }
    assert(push(whole, filters, types) == filter(
        join(push(left, l, types), push(right, r, types), keys),
        and_all(rest),
    ));
    assert forall|f: Expr| #[trigger] filters.contains(f) implies (is_ready(f, a) <==> l.contains(
        f,
    )) && (is_ready(f, b) <==> r.contains(f)) && (rest.contains(f) <==> !is_ready(f, a)
        && !is_ready(f, b)) by {
        assert(all_bound(f, a) == is_ready(f, a));
        assert(all_bound(f, b) == is_ready(f, b));
    }
}

/// A filter whose variables all have a value on the left side of a left join gets
/// into that side. Nothing that is filtered for above gets into the right side.
pub proof fn law_filters_get_below_left_joins(
    left: Plan,
    right: Plan,
    expression: Expr,
    keys: Seq<Seq<char>>,
    filters: Seq<Expr>,
    types: Types,
)
    ensures
        exists|l: Seq<Expr>, r: Seq<Expr>, rest: Seq<Expr>, e: Expr|
            {
                let whole = Plan::LeftJoin {
                    left: Box::new(left),
                    right: Box::new(right),
                    expression,
                    keys,
                };
                let a = infer(left, types);
                &&& push(whole, filters, types) == filter(
                    #[trigger] left_join(push(left, l, types), push(right, r, types), e, keys),
                    #[trigger] and_all(rest),
                )
                &&& r == seq![expression] && e == truth(true) || r == Seq::<Expr>::empty() && e
                    == expression
                &&& forall|f: Expr| #[trigger]
                    filters.contains(f) ==> (is_ready(f, a) <==> l.contains(f)) && (rest.contains(f)
                        <==> !is_ready(f, a))
            },
{
    let a = infer(left, types);
    let l = bound_filters(filters, a);
    let rest = open_filters(filters, a);
    let moves = is_right_condition(expression, a, infer(right, types));
    let (r, e) = if moves {
        (seq![expression], truth(true))
    } else {
        (seq![], expression)
    };
    lemma_filtered(filters, |f: Expr| all_bound(f, a));
    lemma_filtered(filters, |f: Expr| !all_bound(f, a));
    let built = left_join(push(left, l, types), push(right, r, types), e, keys);
    let whole = Plan::LeftJoin { left: Box::new(left), right: Box::new(right), expression, keys };
    assert(push(whole, filters, types) == filter(built, and_all(rest)));
    assert forall|f: Expr| #[trigger] filters.contains(f) implies (is_ready(f, a) <==> l.contains(
        f,
    )) && (rest.contains(f) <==> !is_ready(f, a)) by {
        assert(all_bound(f, a) == is_ready(f, a));
    }
}

} // verus!
