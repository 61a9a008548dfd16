//! When evaluating a plan for each solution of another gives their join.

use vstd::multiset::Multiset;
use vstd::prelude::*;

use crate::algebra::{AggregateExpr, Expr, Plan};
use crate::bags::{
    gather, keep, lemma_gather_concat, lemma_gather_contains, lemma_gather_equal,
    lemma_gather_order, lemma_gather_same, lemma_gather_single, lemma_gather_twice, lemma_keep_all,
    lemma_keep_contains, lemma_keep_order, lemma_once, lemma_once_keep, lemma_once_mapped,
    lemma_once_order, lemma_same_items, once, same,
};
use crate::congruence::lemma_match_same;
use crate::depends::{lemma_eval_depends, moved, mover};
use crate::eval_basics::{lemma_contains_index, lemma_eval_within, lemma_find, within};
use crate::origins::lemma_joined_origin;
use crate::plan_laws::lemma_eval_extends;
use crate::push_laws::lemma_matches_extend;
use crate::scoping::Names;
use crate::semantics::{
    condition, eval, evaluator, excluded, extended, extender, grouped, groups_apart, hidden, holds,
    matcher, or_itself, regular, remains, shares_variable, shown_with, value, without_all, World,
};
use crate::solutions::{
    agree, all_extend, compatible, extends, hide_variables, joined_bags, joined_with,
    lemma_compatible_sym, lemma_extends_merge, lemma_join_assoc, lemma_join_commutes,
    lemma_join_same, lemma_joined_with_base, lemma_joined_with_contains, lemma_joined_with_twice,
    lemma_merge_assoc, lemma_merge_extends, lookup, merge, merged, Solution, Term,
};
use crate::variables::{aggregate_names, plan_variables};

verus! {

/// Evaluating a plan where more is known gives the join of what is known with
/// the solutions of the plan.
pub open spec fn follows(world: World, plan: Plan, less: Solution, more: Solution) -> bool {
    same(eval(world, plan, more), joined_with(more, eval(world, plan, less)))
}

/// The variables that get a value.
pub open spec fn gained(less: Solution, more: Solution) -> Names {
    more.dom().difference(less.dom())
}

/// What extends the base of some joined solutions joins with them directly.
pub proof fn lemma_joined_again(more: Solution, less: Solution, others: Seq<Solution>)
    requires
        extends(more, less),
    ensures
        joined_with(more, joined_with(less, others)) == joined_with(more, others),
{
    lemma_joined_with_twice(more, less, others);
    lemma_extends_merge(more, less);
    lemma_compatible_sym(more, less);
    lemma_gather_single(more, |x: Solution| joined_with(x, others));
    assert(merged(more, less) == seq![more]);
}

/// Joining one solution is joining a bag of one.
pub proof fn lemma_joined_one(a: Solution, others: Seq<Solution>)
    ensures
        joined_bags(seq![a], others) == joined_with(a, others),
{
    lemma_gather_single(a, |s: Solution| joined_with(s, others));
}

/// Joins commute with joining what is known.
pub proof fn lemma_follow_join(
    more: Solution,
    l1: Seq<Solution>,
    r1: Seq<Solution>,
    l: Seq<Solution>,
    r: Seq<Solution>,
)
    requires
        same(l1, joined_with(more, l)),
        same(r1, joined_with(more, r)),
    ensures
        same(joined_bags(l1, r1), joined_with(more, joined_bags(l, r))),
{
    let one = seq![more];
    lemma_joined_one(more, l);
    lemma_joined_one(more, r);
    lemma_joined_one(more, joined_bags(l, r));
    let (a, b) = (joined_bags(one, l), joined_bags(one, r));
    lemma_join_same(l1, r1, a, b);
    // (one l) (one r) = (l one) (one r) = l (one (one r)) = l (one r)
    lemma_join_commutes(one, l);
    lemma_join_same(a, b, joined_bags(l, one), b);
    lemma_join_assoc(l, one, b);
    lemma_join_assoc(one, one, r);
    lemma_joined_one(more, one);
    lemma_gather_single(more, |other: Solution| merged(more, other));
    lemma_extends_merge(more, more);
    assert(joined_bags(one, one) == one);
    assert(joined_bags(one, b) == b);
    // l (one r) = (l one) r = (one l) r = one (l r)
    lemma_join_assoc(l, one, r);
    lemma_join_same(joined_bags(l, one), r, a, r);
    lemma_join_assoc(one, l, r);
}

/// Joining what is known with what is gathered.
pub proof fn lemma_joined_gather(
    more: Solution,
    items: Seq<Solution>,
    f: spec_fn(Solution) -> Seq<Solution>,
)
    ensures
        joined_with(more, gather(items, f)) == gather(
            items,
            |s: Solution| joined_with(more, f(s)),
        ),
{
    let g = |other: Solution| merged(more, other);
    lemma_gather_twice(items, f, g);
    let a = |s: Solution| gather(f(s), g);
    let b = |s: Solution| joined_with(more, f(s));
    assert forall|i: int| 0 <= i < items.len() implies a(#[trigger] items[i]) == b(items[i]) by {
    }
    lemma_gather_equal(items, a, b);
}

/// What is made of each solution, where it is made of the solution joined with
/// what is known.
pub proof fn lemma_follow_gather(
    more: Solution,
    l1: Seq<Solution>,
    l: Seq<Solution>,
    f1: spec_fn(Solution) -> Seq<Solution>,
    f: spec_fn(Solution) -> Seq<Solution>,
)
    requires
        same(l1, joined_with(more, l)),
        forall|i: int|
            0 <= i < l.len() && compatible(more, #[trigger] l[i]) ==> same(
                f1(merge(more, l[i])),
                joined_with(more, f(l[i])),
            ),
        forall|i: int, k: int|
            0 <= i < l.len() && 0 <= k < f(l[i]).len() ==> extends(#[trigger] f(l[i])[k], l[i]),
    ensures
        same(gather(l1, f1), joined_with(more, gather(l, f))),
{
    lemma_gather_order(l1, joined_with(more, l), f1);
    let g = |other: Solution| merged(more, other);
    lemma_gather_twice(l, g, f1);
    let a = |s: Solution| gather(g(s), f1);
    let b = |s: Solution| joined_with(more, f(s));
    assert forall|i: int| 0 <= i < l.len() implies same(a(#[trigger] l[i]), b(l[i])) by {
        let s = l[i];
        if compatible(more, s) {
            assert(g(s) == seq![merge(more, s)]);
            lemma_gather_single(merge(more, s), f1);
            assert(same(f1(merge(more, l[i])), joined_with(more, f(l[i]))));
        } else {
            assert(g(s) =~= seq![]);
            assert(a(s) =~= seq![]);
            assert forall|k: int| 0 <= k < f(s).len() implies merged(more, #[trigger] f(s)[k])
                == Seq::<Solution>::empty() by {
                assert(extends(f(l[i])[k], l[i]));
                if compatible(more, f(s)[k]) {
                    assert forall|v: Seq<char>| #[trigger]
                        more.dom().contains(v) && #[trigger] s.dom().contains(v) implies more[v]
                        == s[v] by {
                        assert(f(s)[k].dom().contains(v));
                    }
                }
                assert(merged(more, f(s)[k]) =~= seq![]);
            }
            lemma_gather_empties(f(s), g);
        }
    }
    lemma_gather_same(l, a, b);
    lemma_joined_gather(more, l, f);
}

proof fn lemma_gather_empties<A, B>(items: Seq<A>, f: spec_fn(A) -> Seq<B>)
    requires
        forall|i: int| 0 <= i < items.len() ==> f(#[trigger] items[i]) == Seq::<B>::empty(),
    ensures
        gather(items, f) == Seq::<B>::empty(),
    decreases items.len(),
{
    if items.len() > 0 {
        let shorter = items.drop_last();
        assert forall|i: int| 0 <= i < shorter.len() implies f(#[trigger] shorter[i]) == Seq::<
            B,
        >::empty() by {
            assert(f(items[i]) == Seq::<B>::empty());
        }
        lemma_gather_empties(shorter, f);
        assert(f(items[items.len() - 1]) == Seq::<B>::empty());
    }
    assert(gather(items, f) =~= Seq::<B>::empty());
}

/// Keeping commutes with joining what is known, where the conditions agree.
pub proof fn lemma_joined_keep(
    more: Solution,
    items: Seq<Solution>,
    after: spec_fn(Solution) -> bool,
    ok: spec_fn(Solution) -> bool,
)
    requires
        forall|i: int|
            0 <= i < items.len() && compatible(more, #[trigger] items[i]) ==> after(
                merge(more, items[i]),
            ) == ok(items[i]),
    ensures
        keep(joined_with(more, items), after) == joined_with(more, keep(items, ok)),
    decreases items.len(),
{
    let g = |other: Solution| merged(more, other);
    let one = |item: Solution|
        if ok(item) {
            seq![item]
        } else {
            seq![]
        };
    let other = |item: Solution|
        if after(item) {
            seq![item]
        } else {
            seq![]
        };
    if items.len() == 0 {
        assert(keep(joined_with(more, items), after) =~= joined_with(more, keep(items, ok)));
    } else {
        let shorter = items.drop_last();
        let last = items.last();
        assert forall|i: int|
            0 <= i < shorter.len() && compatible(more, #[trigger] shorter[i]) implies after(
            merge(more, shorter[i]),
        ) == ok(shorter[i]) by {
            assert(shorter[i] == items[i]);
        }
        lemma_joined_keep(more, shorter, after, ok);
        lemma_gather_concat(joined_with(more, shorter), g(last), other);
        lemma_gather_concat(keep(shorter, ok), one(last), g);
        assert(items[items.len() - 1] == last);
        if compatible(more, last) {
            lemma_gather_single(merge(more, last), other);
            assert(g(last) == seq![merge(more, last)]);
        } else {
            assert(gather(g(last), other) =~= seq![]);
        }
        if ok(last) {
            lemma_gather_single(last, g);
        } else {
            assert(gather(one(last), g) =~= seq![]);
        }
        assert(keep(joined_with(more, items), after) =~= joined_with(more, keep(items, ok)));
    }
}

/// Filters commute with joining what is known.
pub proof fn lemma_follow_filter(
    world: World,
    more: Solution,
    x1: Seq<Solution>,
    x: Seq<Solution>,
    e: Expr,
)
    requires
        same(x1, joined_with(more, x)),
        forall|i: int|
            0 <= i < x.len() && compatible(more, #[trigger] x[i]) ==> holds(
                world,
                e,
                merge(more, x[i]),
            ) == holds(world, e, x[i]),
    ensures
        same(
            keep(x1, condition(world, e)),
            joined_with(more, keep(x, condition(world, e))),
        ),
{
    let ok = condition(world, e);
    lemma_keep_order(x1, joined_with(more, x), ok);
    assert forall|i: int| 0 <= i < x.len() && compatible(more, #[trigger] x[i]) implies ok(
        merge(more, x[i]),
    ) == ok(x[i]) by {
        assert(ok(merge(more, x[i])) == holds(world, e, merge(more, x[i])));
        assert(ok(x[i]) == holds(world, e, x[i]));
    }
    lemma_joined_keep(more, x, ok, ok);
}

/// Joining three solutions, in either way.
proof fn lemma_merged_assoc(a: Solution, b: Solution, c: Solution)
    ensures
        gather(merged(a, b), |x: Solution| merged(x, c)) == gather(
            merged(b, c),
            |x: Solution| merged(a, x),
        ),
{
    lemma_merge_assoc(a, b, c);
    let f = |x: Solution| merged(x, c);
    let g = |x: Solution| merged(a, x);
    if compatible(a, b) {
        lemma_gather_single(merge(a, b), f);
    } else {
        assert(gather(merged(a, b), f) =~= seq![]);
    }
    if compatible(b, c) {
        lemma_gather_single(merge(b, c), g);
    } else {
        assert(gather(merged(b, c), g) =~= seq![]);
    }
    assert(gather(merged(a, b), f) =~= gather(merged(b, c), g));
}

/// What extends a solution.
pub proof fn lemma_extended_extends(
    s: Solution,
    variable: Seq<char>,
    y: Option<Term>,
    k: int,
)
    requires
        0 <= k < extended(s, variable, y).len(),
    ensures
        extends(extended(s, variable, y)[k], s),
{
    if let Some(term) = y {
        let cell: Solution = Map::empty().insert(variable, term);
        lemma_merge_extends(s, cell);
    }
}

/// Extensions commute with joining what is known.
pub proof fn lemma_follow_extend(
    world: World,
    more: Solution,
    x1: Seq<Solution>,
    x: Seq<Solution>,
    variable: Seq<char>,
    e: Expr,
)
    requires
        same(x1, joined_with(more, x)),
        forall|i: int|
            0 <= i < x.len() && compatible(more, #[trigger] x[i]) ==> value(
                world,
                e,
                merge(more, x[i]),
            ) == value(world, e, x[i]),
    ensures
        same(
            gather(x1, extender(world, variable, e)),
            joined_with(more, gather(x, extender(world, variable, e))),
        ),
{
    let f = extender(world, variable, e);
    assert forall|i: int| 0 <= i < x.len() && compatible(more, #[trigger] x[i]) implies same(
        f(merge(more, x[i])),
        joined_with(more, f(x[i])),
    ) by {
        let s = x[i];
        let m = merge(more, s);
        let y = value(world, e, s);
        assert(f(m) == extended(m, variable, y));
        assert(f(s) == extended(s, variable, y));
        match y {
            Some(term) => {
                let cell: Solution = Map::empty().insert(variable, term);
                lemma_merged_assoc(more, s, cell);
                lemma_gather_single(m, |z: Solution| merged(z, cell));
                assert(merged(more, s) == seq![m]);
            },
            None => {
                lemma_gather_single(s, |z: Solution| merged(more, z));
            },
        }
    }
    assert forall|i: int, k: int| 0 <= i < x.len() && 0 <= k < f(x[i]).len() implies extends(
        #[trigger] f(x[i])[k],
        x[i],
    ) by {
        lemma_extended_extends(x[i], variable, value(world, e, x[i]), k);
    }
    lemma_follow_gather(more, x1, x, f, f);
}

/// Where all of some solutions are compatible with what is known, as many are
/// joined.
proof fn lemma_all_joined(more: Solution, items: Seq<Solution>)
    requires
        forall|i: int| 0 <= i < items.len() ==> compatible(more, #[trigger] items[i]),
    ensures
        joined_with(more, items).len() == items.len(),
    decreases items.len(),
{
    if items.len() > 0 {
        let shorter = items.drop_last();
        assert forall|i: int| 0 <= i < shorter.len() implies compatible(
            more,
            #[trigger] shorter[i],
        ) by {
            assert(compatible(more, items[i]));
        }
        lemma_all_joined(more, shorter);
        assert(compatible(more, items[items.len() - 1]));
    }
}

/// The matches of a solution that is joined with what is known.
proof fn lemma_follow_match(
    world: World,
    more: Solution,
    less: Solution,
    s: Solution,
    r1: Seq<Solution>,
    r: Seq<Solution>,
    e: Expr,
)
    requires
        extends(more, less),
        compatible(more, s),
        same(r1, joined_with(more, r)),
        forall|k: int|
            0 <= k < r.len() && compatible(s, #[trigger] r[k]) ==> compatible(
                more,
                merge(s, r[k]),
            ) && holds(world, e, merge(more, merge(s, r[k]))) == holds(world, e, merge(s, r[k])),
    ensures
        same(
            matcher(world, e, r1)(merge(more, s)),
            joined_with(more, matcher(world, e, r)(s)),
        ),
{
    let m = merge(more, s);
    let ok = condition(world, e);
    lemma_merge_extends(more, s);
    // The matches among what is joined are the matches, joined.
    lemma_match_same(world, m, r1, joined_with(more, r), e, e);
    lemma_joined_again(m, more, r);
    lemma_joined_with_twice(more, s, r);
    lemma_gather_single(m, |x: Solution| joined_with(x, r));
    assert(merged(more, s) == seq![m]);
    let x = joined_with(s, r);
    assert(joined_with(m, joined_with(more, r)) == joined_with(more, x));
    assert forall|i: int| 0 <= i < x.len() implies compatible(more, #[trigger] x[i]) && ok(
        merge(more, x[i]),
    ) == ok(x[i]) by {
        lemma_contains_index(x, i);
        let k = lemma_joined_origin(s, r, x[i]);
        assert(compatible(s, r[k]));
        assert(ok(x[i]) == holds(world, e, x[i]));
        assert(ok(merge(more, x[i])) == holds(world, e, merge(more, x[i])));
    }
    lemma_joined_keep(more, x, ok, ok);
    let kept = keep(x, ok);
    assert forall|i: int| 0 <= i < kept.len() implies compatible(more, #[trigger] kept[i]) by {
        lemma_contains_index(kept, i);
        lemma_keep_contains(x, ok, kept[i]);
        let j = lemma_find(x, kept[i]);
        assert(compatible(more, x[j]));
    }
    lemma_all_joined(more, kept);
    assert(matcher(world, e, r)(s) == or_itself(s, kept));
    assert(matcher(world, e, joined_with(more, r))(m) == or_itself(m, joined_with(more, kept)));
    if kept.len() == 0 {
        lemma_gather_single(s, |z: Solution| merged(more, z));
    }
}

/// Left joins commute with joining what is known.
pub proof fn lemma_follow_left_join(
    world: World,
    more: Solution,
    less: Solution,
    l1: Seq<Solution>,
    l: Seq<Solution>,
    r1: Seq<Solution>,
    r: Seq<Solution>,
    e: Expr,
)
    requires
        extends(more, less),
        same(l1, joined_with(more, l)),
        same(r1, joined_with(more, r)),
        forall|i: int, k: int|
            0 <= i < l.len() && 0 <= k < r.len() && compatible(more, l[i]) && compatible(
                l[i],
                r[k],
            ) ==> compatible(more, #[trigger] merge(l[i], r[k])) && holds(
                world,
                e,
                merge(more, merge(l[i], r[k])),
            ) == holds(world, e, merge(l[i], r[k])),
    ensures
        same(
            gather(l1, matcher(world, e, r1)),
            joined_with(more, gather(l, matcher(world, e, r))),
        ),
{
    let (f1, f) = (matcher(world, e, r1), matcher(world, e, r));
    assert forall|i: int| 0 <= i < l.len() && compatible(more, #[trigger] l[i]) implies same(
        f1(merge(more, l[i])),
        joined_with(more, f(l[i])),
    ) by {
        assert forall|k: int| 0 <= k < r.len() && compatible(l[i], #[trigger] r[k]) implies
            compatible(more, merge(l[i], r[k])) && holds(
            world,
            e,
            merge(more, merge(l[i], r[k])),
        ) == holds(world, e, merge(l[i], r[k])) by {
        }
        lemma_follow_match(world, more, less, l[i], r1, r, e);
    }
    assert forall|i: int, k: int| 0 <= i < l.len() && 0 <= k < f(l[i]).len() implies extends(
        #[trigger] f(l[i])[k],
        l[i],
    ) by {
        lemma_matches_extend(world, e, r, l[i], k);
    }
    lemma_follow_gather(more, l1, l, f1, f);
}

/// Lateral joins commute with joining what is known.
pub proof fn lemma_follow_lateral(
    world: World,
    more: Solution,
    l1: Seq<Solution>,
    l: Seq<Solution>,
    right: Plan,
)
    requires
        regular(world),
        same(l1, joined_with(more, l)),
        forall|i: int|
            0 <= i < l.len() && compatible(more, #[trigger] l[i]) ==> follows(
                world,
                right,
                l[i],
                merge(more, l[i]),
            ),
    ensures
        same(
            gather(l1, evaluator(world, right)),
            joined_with(more, gather(l, evaluator(world, right))),
        ),
{
    let f = evaluator(world, right);
    assert forall|i: int| 0 <= i < l.len() && compatible(more, #[trigger] l[i]) implies same(
        f(merge(more, l[i])),
        joined_with(more, f(l[i])),
    ) by {
        let s = l[i];
        let m = merge(more, s);
        let made = eval(world, right, s);
        assert(f(m) == eval(world, right, m));
        assert(f(s) == made);
        assert(follows(world, right, l[i], merge(more, l[i])));
        lemma_eval_extends(world, right, s);
        lemma_joined_with_base(s, made);
        lemma_joined_with_twice(more, s, made);
        lemma_gather_single(m, |x: Solution| joined_with(x, made));
        assert(merged(more, s) == seq![m]);
    }
    assert forall|i: int, k: int| 0 <= i < l.len() && 0 <= k < f(l[i]).len() implies extends(
        #[trigger] f(l[i])[k],
        l[i],
    ) by {
        lemma_eval_extends(world, right, l[i]);
        assert(extends(eval(world, right, l[i])[k], l[i]));
    }
    lemma_follow_gather(more, l1, l, f, f);
}

/// Joining what is known with the solutions that are compatible with it.
proof fn lemma_joined_kept(more: Solution, items: Seq<Solution>)
    ensures
        joined_with(more, items) == keep(items, |s: Solution| compatible(more, s)).map_values(
            |s: Solution| merge(more, s),
        ),
    decreases items.len(),
{
    let ok = |s: Solution| compatible(more, s);
    let put = |s: Solution| merge(more, s);
    if items.len() > 0 {
        lemma_joined_kept(more, items.drop_last());
    }
    assert(joined_with(more, items) =~= keep(items, ok).map_values(put));
}

/// Distinct solutions commute with joining what is known, where no two solutions
/// become one.
pub proof fn lemma_follow_once(more: Solution, x1: Seq<Solution>, x: Seq<Solution>)
    requires
        same(x1, joined_with(more, x)),
        forall|i: int, j: int|
            0 <= i < x.len() && 0 <= j < x.len() && compatible(more, x[i]) && compatible(more, x[j])
                && #[trigger] merge(more, x[i]) == #[trigger] merge(more, x[j]) ==> x[i] == x[j],
    ensures
        same(once(x1), joined_with(more, once(x))),
{
    let ok = |s: Solution| compatible(more, s);
    let put = |s: Solution| merge(more, s);
    let kept = keep(x, ok);
    lemma_once_order(x1, joined_with(more, x));
    lemma_joined_kept(more, x);
    assert forall|i: int, j: int|
        0 <= i < kept.len() && 0 <= j < kept.len() && put(#[trigger] kept[i]) == put(
            #[trigger] kept[j],
        ) implies kept[i] == kept[j] by {
        lemma_contains_index(kept, i);
        lemma_contains_index(kept, j);
        lemma_keep_contains(x, ok, kept[i]);
        lemma_keep_contains(x, ok, kept[j]);
        let a = lemma_find(x, kept[i]);
        let b = lemma_find(x, kept[j]);
        assert(merge(more, x[a]) == merge(more, x[b]));
    }
    lemma_once_mapped(kept, put);
    // The distinct solutions that are kept are kept of the distinct ones.
    let (a, b) = (once(kept), keep(once(x), ok));
    lemma_once_keep(x, ok);
    lemma_gather_order(a, b, |s: Solution| merged(more, s));
    lemma_once(kept);
    assert forall|i: int| 0 <= i < a.len() implies ok(#[trigger] a[i]) by {
        lemma_contains_index(a, i);
        lemma_keep_contains(x, ok, a[i]);
    }
    lemma_keep_all(a, ok);
    lemma_joined_kept(more, a);
    assert forall|i: int| 0 <= i < b.len() implies ok(#[trigger] b[i]) by {
        lemma_contains_index(b, i);
        lemma_keep_contains(once(x), ok, b[i]);
    }
    lemma_keep_all(b, ok);
    lemma_joined_kept(more, b);
    lemma_joined_kept(more, once(x));
}

/// What excludes a solution excludes it where more is known, of which the excluding
/// solutions bind nothing.
proof fn lemma_excluded(
    s: Solution,
    less: Solution,
    more: Solution,
    others: Seq<Solution>,
    after: Seq<Solution>,
    used: Names,
)
    requires
        extends(more, less),
        extends(s, less),
        compatible(more, s),
        all_extend(others, less),
        forall|k: int| 0 <= k < others.len() ==> within(#[trigger] others[k], less, used),
        used.disjoint(gained(less, more)),
        same(after, joined_with(more, others)),
    ensures
        excluded(merge(more, s), after, more) == excluded(s, others, less),
{
    let m = merge(more, s);
    let all = joined_with(more, others);
    lemma_same_items(after, all);
    assert forall|k: int| 0 <= k < others.len() implies compatible(more, #[trigger] others[k])
        && compatible(m, merge(more, others[k])) == compatible(s, others[k]) && shares_variable(
        m,
        merge(more, others[k]),
        more,
    ) == shares_variable(s, others[k], less) by {
        let x = others[k];
        let y = merge(more, x);
        assert(extends(x, less));
        assert(within(x, less, used));
        assert forall|v: Seq<char>| #[trigger] x.dom().contains(v) implies !gained(
            less,
            more,
        ).contains(v) by {
            if gained(less, more).contains(v) {
                assert(lookup(x, v) == lookup(less, v));
            }
        }
        assert(compatible(more, x)) by {
            assert forall|v: Seq<char>| #[trigger]
                more.dom().contains(v) && #[trigger] x.dom().contains(v) implies more[v]
                == x[v] by {
                assert(less.dom().contains(v));
            }
        }
        if compatible(s, x) {
            assert(compatible(m, y)) by {
                assert forall|v: Seq<char>| #[trigger]
                    m.dom().contains(v) && #[trigger] y.dom().contains(v) implies m[v] == y[v] by {
                    if s.dom().contains(v) && x.dom().contains(v) {
                        assert(s[v] == x[v]);
                    }
                }
            }
        }
        if compatible(m, y) {
            assert(compatible(s, x)) by {
                assert forall|v: Seq<char>| #[trigger]
                    s.dom().contains(v) && #[trigger] x.dom().contains(v) implies s[v] == x[v] by {
                    assert(m.dom().contains(v) && y.dom().contains(v));
                }
            }
        }
        if shares_variable(s, x, less) {
            let v = choose|v: Seq<char>| #[trigger]
                s.dom().contains(v) && x.dom().contains(v) && !less.dom().contains(v);
            assert(m.dom().contains(v) && y.dom().contains(v) && !more.dom().contains(v));
        }
        if shares_variable(m, y, more) {
            let v = choose|v: Seq<char>| #[trigger]
                m.dom().contains(v) && y.dom().contains(v) && !more.dom().contains(v);
            assert(s.dom().contains(v) && x.dom().contains(v) && !less.dom().contains(v));
        }
    }
    if excluded(s, others, less) {
        let k = choose|k: int|
            0 <= k < others.len() && compatible(s, #[trigger] others[k]) && shares_variable(
                s,
                others[k],
                less,
            );
        let y = merge(more, others[k]);
        lemma_joined_with_contains(more, others, y);
        assert(after.contains(y));
        let n = lemma_find(after, y);
        assert(compatible(m, after[n]));
    }
    if excluded(m, after, more) {
        let n = choose|n: int|
            0 <= n < after.len() && compatible(m, #[trigger] after[n]) && shares_variable(
                m,
                after[n],
                more,
            );
        lemma_contains_index(after, n);
        let k = lemma_joined_origin(more, others, after[n]);
        assert(compatible(s, others[k]));
    }
}

/// Differences commute with joining what is known, of which the right side uses
/// nothing.
pub proof fn lemma_follow_minus(
    world: World,
    left: Plan,
    right: Plan,
    keys: Seq<Seq<char>>,
    less: Solution,
    more: Solution,
)
    requires
        regular(world),
        extends(more, less),
        follows(world, left, less, more),
        plan_variables(right).disjoint(gained(less, more)),
    ensures
        follows(
            world,
            (Plan::Minus { left: Box::new(left), right: Box::new(right), keys }),
            less,
            more,
        ),
{
    let (l, r) = (eval(world, left, less), eval(world, right, less));
    let (l1, r1) = (eval(world, left, more), eval(world, right, more));
    let (ok, after) = (remains(r, less), remains(r1, more));
    lemma_follow_apart(world, right, less, more);
    lemma_eval_extends(world, left, less);
    lemma_eval_extends(world, right, less);
    lemma_eval_within(world, right, less);
    lemma_keep_order(l1, joined_with(more, l), after);
    assert forall|i: int| 0 <= i < l.len() && compatible(more, #[trigger] l[i]) implies after(
        merge(more, l[i]),
    ) == ok(l[i]) by {
        assert(extends(l[i], less));
        lemma_excluded(l[i], less, more, r, r1, plan_variables(right));
    }
    lemma_joined_keep(more, l, after, ok);
}

/// The members of the groups where grouping values get known are those with these
/// values.
proof fn lemma_members(
    more: Solution,
    less: Solution,
    key: Solution,
    columns: Names,
    x: Seq<Solution>,
    used: Names,
)
    requires
        extends(more, less),
        all_extend(x, less),
        forall|i: int| 0 <= i < x.len() ==> within(#[trigger] x[i], less, used),
        used.intersect(gained(less, more)).subset_of(columns),
        key == more.restrict(gained(less, more).intersect(columns)),
        forall|i: int| 0 <= i < x.len() ==> key.dom().subset_of((#[trigger] x[i]).dom()),
    ensures
        without_all(joined_with(more, x), more.dom().difference(columns)) == keep(
            without_all(x, less.dom().difference(columns)),
            |m: Solution| compatible(key, m),
        ),
    decreases x.len(),
{
    let (a, b) = (less.dom().difference(columns), more.dom().difference(columns));
    let f = |s: Solution| seq![hide_variables(s, a)];
    let f1 = |s: Solution| seq![hide_variables(s, b)];
    let g = |s: Solution| merged(more, s);
    let ok = |m: Solution| compatible(key, m);
    if x.len() == 0 {
        assert(without_all(joined_with(more, x), b) =~= keep(without_all(x, a), ok));
    } else {
        let shorter = x.drop_last();
        let s = x.last();
        let n = x.len() - 1;
        assert(x[n] == s);
        assert forall|i: int| 0 <= i < shorter.len() implies within(
            #[trigger] shorter[i],
            less,
            used,
        ) && key.dom().subset_of(shorter[i].dom()) && extends(shorter[i], less) by {
            assert(shorter[i] == x[i]);
        }
        lemma_members(more, less, key, columns, shorter, used);
        assert(extends(s, less) && within(s, less, used) && key.dom().subset_of(s.dom()));
        let m = hide_variables(s, a);
        lemma_gather_concat(joined_with(more, shorter), g(s), f1);
        let one = |item: Solution|
            if ok(item) {
                seq![item]
            } else {
                seq![]
            };
        lemma_gather_concat(without_all(shorter, a), f(s), one);
        lemma_gather_single(m, one);
        assert forall|v: Seq<char>| #[trigger] s.dom().contains(v) && gained(less, more).contains(
            v,
        ) implies columns.contains(v) by {
            if !used.contains(v) {
                assert(lookup(s, v) == lookup(less, v));
            }
            assert(used.intersect(gained(less, more)).contains(v));
        }
        assert(compatible(more, s) == ok(m)) by {
            if compatible(more, s) {
                assert forall|v: Seq<char>| #[trigger]
                    key.dom().contains(v) && #[trigger] m.dom().contains(v) implies key[v]
                    == m[v] by {
                    assert(more.dom().contains(v) && s.dom().contains(v));
                }
            }
            if ok(m) {
                assert forall|v: Seq<char>| #[trigger]
                    more.dom().contains(v) && #[trigger] s.dom().contains(v) implies more[v]
                    == s[v] by {
                    if !less.dom().contains(v) {
                        assert(gained(less, more).contains(v));
                        assert(key.dom().contains(v) && m.dom().contains(v));
                    }
                }
            }
        }
        if compatible(more, s) {
            let y = merge(more, s);
            lemma_gather_single(y, f1);
            assert(g(s) == seq![y]);
            assert(hide_variables(y, b) =~= m) by {
                assert forall|v: Seq<char>| hide_variables(y, b).dom().contains(v)
                    == m.dom().contains(v) by {
                    if more.dom().contains(v) && columns.contains(v) && !less.dom().contains(v) {
                        assert(key.dom().contains(v));
                    }
                }
            }
        } else {
            assert(gather(g(s), f1) =~= seq![]);
        }
        assert(without_all(joined_with(more, x), b) =~= keep(without_all(x, a), ok));
    }
}

/// The bag of what is kept of a list.
proof fn lemma_keep_bag(items: Seq<Solution>, ok: spec_fn(Solution) -> bool)
    ensures
        keep(items, ok).to_multiset() == items.to_multiset().filter(ok),
    decreases items.len(),
{
    items.to_multiset_ensures();
    let one = |item: Solution|
        if ok(item) {
            seq![item]
        } else {
            seq![]
        };
    if items.len() == 0 {
        assert(keep(items, ok) =~= seq![]);
        assert(items =~= Seq::<Solution>::empty());
        assert(items.to_multiset().filter(ok) =~= Multiset::<Solution>::empty());
        keep(items, ok).to_multiset_ensures();
    } else {
        let (shorter, last) = (items.drop_last(), items.last());
        lemma_keep_bag(shorter, ok);
        shorter.to_multiset_ensures();
        assert(shorter.push(last) =~= items);
        let before = keep(shorter, ok);
        before.to_multiset_ensures();
        if ok(last) {
            assert(keep(items, ok) =~= before.push(last));
        } else {
            assert(keep(items, ok) =~= before);
        }
        assert(keep(items, ok).to_multiset() =~= items.to_multiset().filter(ok));
    }
}

/// Groups commute with joining what is known, where that is known of their members.
pub proof fn lemma_follow_group(
    world: World,
    inner: Plan,
    variables: Seq<Seq<char>>,
    aggregates: Seq<(Seq<char>, AggregateExpr)>,
    less: Solution,
    more: Solution,
)
    requires
        regular(world),
        extends(more, less),
        variables.len() > 0,
        aggregate_names(aggregates).disjoint(gained(less, more)),
        ({
            let local = hidden(inner, variables);
            let (a, b) = (hide_variables(less, local), hide_variables(more, local));
            &&& follows(world, inner, a, b)
            &&& forall|t: Solution, v: Seq<char>|
                eval(world, inner, a).contains(t) && #[trigger] gained(less, more).contains(v)
                    && variables.contains(v) ==> #[trigger] t.dom().contains(v)
        }),
    ensures
        follows(
            world,
            (Plan::Group { inner: Box::new(inner), variables, aggregates }),
            less,
            more,
        ),
{
    let local = hidden(inner, variables);
    let (a, b) = (hide_variables(less, local), hide_variables(more, local));
    let columns = variables.to_set();
    let (x, x1) = (eval(world, inner, a), eval(world, inner, b));
    let key = b.restrict(gained(a, b).intersect(columns));
    let ok = |m: Solution| compatible(key, m);
    let (members, members1) = (grouped(x, a, variables), grouped(x1, b, variables));
    lemma_eval_extends(world, inner, a);
    lemma_eval_within(world, inner, a);
    assert(extends(b, a));
    assert forall|v: Seq<char>| gained(a, b).contains(v) implies #[trigger] gained(
        less,
        more,
    ).contains(v) by {
    }
    assert forall|i: int| 0 <= i < x.len() implies key.dom().subset_of((#[trigger] x[i]).dom()) by {
        lemma_contains_index(x, i);
        assert forall|v: Seq<char>| #[trigger] key.dom().contains(v) implies x[i].dom().contains(
            v,
        ) by {
            assert(gained(less, more).contains(v));
            assert(variables.contains(v));
        }
    }
    lemma_members(b, a, key, columns, x, plan_variables(inner));
    let f1 = |s: Solution| seq![hide_variables(s, b.dom().difference(columns))];
    lemma_gather_order(x1, joined_with(b, x), f1);
    let bag = members.to_multiset();
    lemma_keep_bag(members, ok);
    assert(members1.to_multiset() == bag.filter(ok));
    assert(key.dom().subset_of(columns.difference(aggregate_names(aggregates)))) by {
        assert forall|v: Seq<char>| #[trigger] key.dom().contains(v) implies columns.difference(
            aggregate_names(aggregates),
        ).contains(v) by {
            assert(gained(less, more).contains(v));
        }
    }
    assert forall|member: Solution| #[trigger] bag.count(member) > 0 implies key.dom().subset_of(
        member.dom(),
    ) by {
        members.to_multiset_ensures();
        assert(members.contains(member));
        let f = |s: Solution| seq![hide_variables(s, a.dom().difference(columns))];
        lemma_gather_contains(x, f, member);
        let i = choose|i: int| 0 <= i < x.len() && f(#[trigger] x[i]).contains(member);
        assert(member == hide_variables(x[i], a.dom().difference(columns)));
    }
    assert(groups_apart(world, variables, aggregates, bag, key));
    let groups = (world.group)(variables, aggregates, bag);
    let groups1 = (world.group)(variables, aggregates, members1.to_multiset());
    let g = |other: Solution| merged(more, other);
    let put = |group: Solution| compatible(key, group);
    assert(same(groups1, keep(groups, put)));
    lemma_gather_order(groups1, keep(groups, put), g);
    lemma_joined_known(more, key, groups);
    lemma_joined_again(more, less, groups);
}

/// What is not compatible with a part of what is known adds nothing.
proof fn lemma_joined_known(more: Solution, key: Solution, items: Seq<Solution>)
    requires
        extends(more, key),
    ensures
        joined_with(more, keep(items, |s: Solution| compatible(key, s))) == joined_with(
            more,
            items,
        ),
    decreases items.len(),
{
    let ok = |s: Solution| compatible(key, s);
    let g = |other: Solution| merged(more, other);
    let one = |item: Solution|
        if ok(item) {
            seq![item]
        } else {
            seq![]
        };
    if items.len() > 0 {
        let (shorter, last) = (items.drop_last(), items.last());
        lemma_joined_known(more, key, shorter);
        lemma_gather_concat(keep(shorter, ok), one(last), g);
        if ok(last) {
            lemma_gather_single(last, g);
        } else {
            assert(gather(one(last), g) =~= seq![]);
            assert(!compatible(more, last)) by {
                if compatible(more, last) {
                    assert forall|v: Seq<char>| #[trigger]
                        key.dom().contains(v) && #[trigger] last.dom().contains(v) implies key[v]
                        == last[v] by {
                        assert(more.dom().contains(v));
                    }
                }
            }
        }
    }
    assert(joined_with(more, keep(items, ok)) =~= joined_with(more, items));
}

/// A plan that uses nothing of what gets known.
pub proof fn lemma_follow_apart(world: World, plan: Plan, less: Solution, more: Solution)
    requires
        regular(world),
        extends(more, less),
        plan_variables(plan).disjoint(gained(less, more)),
    ensures
        follows(world, plan, less, more),
{
    let used = plan_variables(plan);
    let x = eval(world, plan, less);
    let f = |s: Solution| merged(more, s);
    assert(agree(less, more, used)) by {
        assert forall|v: Seq<char>| #[trigger] used.contains(v) implies lookup(less, v) == lookup(
            more,
            v,
        ) by {
            assert(!gained(less, more).contains(v));
        }
    }
    lemma_eval_depends(world, plan, less, more, used);
    lemma_eval_within(world, plan, less);
    lemma_eval_extends(world, plan, less);
    assert forall|i: int| 0 <= i < x.len() implies f(#[trigger] x[i]) == seq![
        moved(x[i], more, used),
    ] by {
        let s = x[i];
        assert(extends(s, less));
        assert(within(s, less, used));
        assert(compatible(more, s)) by {
            assert forall|v: Seq<char>| #[trigger]
                more.dom().contains(v) && #[trigger] s.dom().contains(v) implies more[v]
                == s[v] by {
                if !less.dom().contains(v) {
                    assert(gained(less, more).contains(v));
                    assert(lookup(s, v) == lookup(less, v));
                }
            }
        }
        assert(merge(more, s) =~= moved(s, more, used)) by {
            assert forall|v: Seq<char>| merge(more, s).dom().contains(v) == moved(
                s,
                more,
                used,
            ).dom().contains(v) by {
                if s.dom().contains(v) && !used.contains(v) {
                    assert(lookup(s, v) == lookup(less, v));
                }
            }
        }
    }
    lemma_gather_changed(x, f, mover(more, used));
}

proof fn lemma_gather_changed(
    items: Seq<Solution>,
    f: spec_fn(Solution) -> Seq<Solution>,
    change: spec_fn(Solution) -> Solution,
)
    requires
        forall|i: int| 0 <= i < items.len() ==> f(#[trigger] items[i]) == seq![change(items[i])],
    ensures
        gather(items, f) == items.map_values(change),
    decreases items.len(),
{
    if items.len() > 0 {
        let shorter = items.drop_last();
        assert forall|i: int| 0 <= i < shorter.len() implies f(#[trigger] shorter[i]) == seq![
            change(shorter[i]),
        ] by {
            assert(f(items[i]) == seq![change(items[i])]);
        }
        lemma_gather_changed(shorter, f, change);
        assert(f(items[items.len() - 1]) == seq![change(items[items.len() - 1])]);
    }
    assert(gather(items, f) =~= items.map_values(change));
}

/// Projections commute with joining what is known.
pub proof fn lemma_follow_shown(
    more: Solution,
    less: Solution,
    local: Names,
    x1: Seq<Solution>,
    x: Seq<Solution>,
)
    requires
        extends(more, less),
        same(x1, joined_with(hide_variables(more, local), x)),
        all_extend(x, hide_variables(less, local)),
    ensures
        same(
            gather(x1, shown_with(more, local)),
            joined_with(more, gather(x, shown_with(less, local))),
        ),
{
    let base = hide_variables(more, local);
    let (f1, f) = (shown_with(more, local), shown_with(less, local));
    let g = |s: Solution| merged(base, s);
    lemma_gather_order(x1, joined_with(base, x), f1);
    lemma_gather_twice(x, g, f1);
    lemma_joined_gather(more, x, f);
    let a = |s: Solution| gather(g(s), f1);
    let b = |s: Solution| joined_with(more, f(s));
    assert forall|i: int| 0 <= i < x.len() implies a(#[trigger] x[i]) == b(x[i]) by {
        assert(extends(x[i], hide_variables(less, local)));
        lemma_shown_one(more, less, local, x[i]);
    }
    lemma_gather_equal(x, a, b);
}

proof fn lemma_shown_one(more: Solution, less: Solution, local: Names, s: Solution)
    requires
        extends(more, less),
        extends(s, hide_variables(less, local)),
    ensures
        gather(merged(hide_variables(more, local), s), shown_with(more, local)) == joined_with(
            more,
            shown_with(less, local)(s),
        ),
{
    let base = hide_variables(more, local);
    let (f1, f) = (shown_with(more, local), shown_with(less, local));
    let seen = hide_variables(s, local);
    assert(compatible(less, seen)) by {
        assert forall|v: Seq<char>| #[trigger]
            less.dom().contains(v) && #[trigger] seen.dom().contains(v) implies less[v]
            == seen[v] by {
            assert(hide_variables(less, local).dom().contains(v));
        }
    }
    let shown = merge(less, seen);
    assert(f(s) == seq![shown]);
    lemma_gather_single(shown, |other: Solution| merged(more, other));
    assert(compatible(base, s) == compatible(more, shown)) by {
        if compatible(base, s) {
            assert forall|v: Seq<char>| #[trigger]
                more.dom().contains(v) && #[trigger] shown.dom().contains(v) implies more[v]
                == shown[v] by {
                if seen.dom().contains(v) {
                    assert(base.dom().contains(v) && s.dom().contains(v));
                    assert(base[v] == s[v]);
                }
            }
        }
        if compatible(more, shown) {
            assert forall|v: Seq<char>| #[trigger]
                base.dom().contains(v) && #[trigger] s.dom().contains(v) implies base[v]
                == s[v] by {
                assert(seen.dom().contains(v));
                assert(more.dom().contains(v) && shown.dom().contains(v));
                assert(more[v] == shown[v]);
            }
        }
    }
    if compatible(base, s) {
        let both = merge(base, s);
        lemma_gather_single(both, f1);
        let left = hide_variables(both, local);
        assert(compatible(more, left)) by {
            assert forall|v: Seq<char>| #[trigger]
                more.dom().contains(v) && #[trigger] left.dom().contains(v) implies more[v]
                == left[v] by {
                assert(base.dom().contains(v));
            }
        }
        assert(merge(more, left) =~= merge(more, shown));
    } else {
        assert(gather(merged(base, s), f1) =~= seq![]);
    }
}

} // verus!
