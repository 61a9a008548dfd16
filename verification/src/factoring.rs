//! The scopes of joined plans, and factoring out what all branches of a union
//! share.

use vstd::prelude::*;

use crate::algebra::{is_atom, Plan};
use crate::bags::{lemma_same_concat, same};
use crate::builders::union_all;
use crate::factors::{
    common_factors, factor_common, factors_of_branches, in_every, join_factors, joined, joined_onto,
    reduced_branches, without_common,
};
use crate::joins::{
    eval_join, lemma_eval_join_extends, lemma_eval_join_remove, lemma_join_factors, lemma_joined,
    lemma_joined_onto,
};
use crate::lookups::{any_has_subclass_path, has_subclass_path};
use crate::plan_laws::lemma_union_all;
use crate::plan_taming::{lemma_join_tamer, lemma_union_tamer};
use crate::scope::{all_bind, binds};
use crate::scoping::{
    all_paths, all_plain, all_scoped, all_steady, joined_paths, lemma_scoped_more, meets, plain,
    plan_paths, scoped, side_by_side, steady, Names, Trace,
};
use crate::semantics::{eval, eval_all, regular, World};
use crate::solutions::{
    joined_bags, lemma_join_assoc, lemma_join_commutes, lemma_join_nothing, lemma_join_same,
    lemma_join_splits, lemma_join_unit, Solution,
};
use crate::taming::tamer;
use crate::variables::{plan_variables, plans_variables};

verus! {

/// The variables of all plans but one.
pub open spec fn other_variables(plans: Seq<Plan>, index: int) -> Names {
    Set::new(
        |v: Seq<char>|
            exists|j: int|
                0 <= j < plans.len() && j != index && plan_variables(#[trigger] plans[j]).contains(v),
    )
}

/// The variables that one of some plans binds.
pub open spec fn any_binds(plans: Seq<Plan>) -> Names {
    Set::new(
        |v: Seq<char>| exists|j: int| 0 <= j < plans.len() && binds(#[trigger] plans[j]).contains(v),
    )
}

/// Joined plans with their scopes in order.
pub open spec fn all_joined_scoped(
    plans: Seq<Plan>,
    sure: Names,
    outside: Names,
    late: Names,
    threshold: nat,
) -> bool {
    forall|i: int|
        0 <= i < plans.len() ==> scoped(
            #[trigger] plans[i],
            sure,
            outside,
            late.union(other_variables(plans, i)),
            threshold,
        )
}

/// A plan that stands for some joined plans, and is tamer than their join.
pub open spec fn tamed(plan: Plan, factors: Seq<Plan>, threshold: nat) -> bool {
    &&& plan_variables(plan).subset_of(plans_variables(factors))
    &&& any_binds(factors).subset_of(binds(plan))
    &&& has_subclass_path(plan) ==> any_has_subclass_path(factors)
    &&& plan_paths(plan).subset_of(joined_paths(factors))
    &&& all_plain(factors) ==> plain(plan)
    &&& forall|late: Names, sure: Names|
        all_steady(factors, late, sure) ==> #[trigger] steady(plan, late, sure)
    &&& forall|sure: Names, outside: Names, late: Names|
        all_joined_scoped(factors, sure, outside, late, threshold) ==> #[trigger] scoped(
            plan,
            sure,
            outside,
            late,
            threshold,
        )
}

/// A nest of joins uses and binds what its operands use and bind.
pub proof fn lemma_factor_names(plan: Plan)
    ensures
        plan_variables(plan) == plans_variables(join_factors(plan)),
        binds(plan) == any_binds(join_factors(plan)),
        has_subclass_path(plan) == any_has_subclass_path(join_factors(plan)),
        plan_paths(plan) == joined_paths(join_factors(plan)),
        plain(plan) == all_plain(join_factors(plan)),
    decreases plan,
{
    let fs = join_factors(plan);
    match plan {
        Plan::Join { left, right, .. } => {
            lemma_factor_names(*left);
            lemma_factor_names(*right);
            lemma_names_concat(join_factors(*left), join_factors(*right));
        },
        _ => {
            assert(fs =~= seq![plan]);
            assert(fs[0] == plan);
            assert(plans_variables(fs) =~= plan_variables(plan));
            assert(any_binds(fs) =~= binds(plan));
            lemma_one(plan);
        },
    }
}

pub proof fn lemma_one(plan: Plan)
    ensures
        plans_variables(seq![plan]) == plan_variables(plan),
        any_binds(seq![plan]) == binds(plan),
        any_has_subclass_path(seq![plan]) == has_subclass_path(plan),
        joined_paths(seq![plan]) == plan_paths(plan),
        all_plain(seq![plan]) == plain(plan),
{
    let one = seq![plan];
    assert(one[0] == plan);
    assert(joined_paths(one) =~= plan_paths(plan));
    assert(plans_variables(one) =~= plan_variables(plan));
    assert(any_binds(one) =~= binds(plan));
}

proof fn lemma_all_paths_concat(a: Seq<Plan>, b: Seq<Plan>)
    ensures
        all_paths(a + b) == all_paths(a).union(all_paths(b)),
{
    let all = a + b;
    assert forall|p: (Trace, bool)| all_paths(all).contains(p) == all_paths(a).union(
        all_paths(b),
    ).contains(p) by {
        if all_paths(all).contains(p) {
            let i = choose|i: int| 0 <= i < all.len() && plan_paths(#[trigger] all[i]).contains(p);
            if i < a.len() {
                assert(plan_paths(a[i]).contains(p));
            } else {
                assert(plan_paths(b[i - a.len()]).contains(p));
            }
        }
        if all_paths(a).contains(p) {
            let i = choose|i: int| 0 <= i < a.len() && plan_paths(#[trigger] a[i]).contains(p);
            assert(plan_paths(all[i]).contains(p));
        }
        if all_paths(b).contains(p) {
            let i = choose|i: int| 0 <= i < b.len() && plan_paths(#[trigger] b[i]).contains(p);
            assert(plan_paths(all[a.len() + i]).contains(p));
        }
    }
    assert(all_paths(all) =~= all_paths(a).union(all_paths(b)));
}

proof fn lemma_paths_concat(a: Seq<Plan>, b: Seq<Plan>)
    ensures
        joined_paths(a + b) == side_by_side(joined_paths(a), joined_paths(b)),
{
    let all = a + b;
    lemma_all_paths_concat(a, b);
    assert forall|path: Trace| #[trigger] meets(all, path) == (meets(a, path) || meets(b, path)
        || all_paths(a).contains((path, false)) && all_paths(b).contains((path, false))) by {
        let p = (path, false);
        if meets(all, path) {
            let (i, j) = choose|i: int, j: int|
                0 <= i < j < all.len() && plan_paths(#[trigger] all[i]).contains(p) && plan_paths(
                    #[trigger] all[j],
                ).contains(p);
            if j < a.len() {
                assert(plan_paths(a[i]).contains(p) && plan_paths(a[j]).contains(p));
            } else if a.len() <= i {
                assert(plan_paths(b[i - a.len()]).contains(p));
                assert(plan_paths(b[j - a.len()]).contains(p));
            } else {
                assert(plan_paths(a[i]).contains(p));
                assert(plan_paths(b[j - a.len()]).contains(p));
            }
        }
        if meets(a, path) {
            let (i, j) = choose|i: int, j: int|
                0 <= i < j < a.len() && plan_paths(#[trigger] a[i]).contains(p) && plan_paths(
                    #[trigger] a[j],
                ).contains(p);
            assert(plan_paths(all[i]).contains(p) && plan_paths(all[j]).contains(p));
        }
        if meets(b, path) {
            let (i, j) = choose|i: int, j: int|
                0 <= i < j < b.len() && plan_paths(#[trigger] b[i]).contains(p) && plan_paths(
                    #[trigger] b[j],
                ).contains(p);
            assert(plan_paths(all[a.len() + i]).contains(p));
            assert(plan_paths(all[a.len() + j]).contains(p));
        }
        if all_paths(a).contains(p) && all_paths(b).contains(p) {
            let i = choose|i: int| 0 <= i < a.len() && plan_paths(#[trigger] a[i]).contains(p);
            let j = choose|j: int| 0 <= j < b.len() && plan_paths(#[trigger] b[j]).contains(p);
            assert(plan_paths(all[i]).contains(p) && plan_paths(all[a.len() + j]).contains(p));
        }
    }
    assert(joined_paths(all) =~= side_by_side(joined_paths(a), joined_paths(b)));
}

/// The paths of joined plans are those of one of them and of the others.
pub proof fn lemma_paths_remove(plans: Seq<Plan>, i: int)
    requires
        0 <= i < plans.len(),
    ensures
        joined_paths(plans) == side_by_side(joined_paths(plans.remove(i)), plan_paths(plans[i])),
{
    let (a, one, b) = (plans.take(i), seq![plans[i]], plans.skip(i + 1));
    assert(plans =~= a + one + b);
    assert(plans.remove(i) =~= a + b);
    lemma_paths_concat(a + one, b);
    lemma_paths_concat(a, one);
    lemma_paths_concat(a, b);
    lemma_one(plans[i]);
    assert(joined_paths(plans) =~= side_by_side(joined_paths(a + b), plan_paths(plans[i])));
}

pub proof fn lemma_names_concat(a: Seq<Plan>, b: Seq<Plan>)
    ensures
        plans_variables(a + b) == plans_variables(a).union(plans_variables(b)),
        any_binds(a + b) == any_binds(a).union(any_binds(b)),
        any_has_subclass_path(a + b) == (any_has_subclass_path(a) || any_has_subclass_path(b)),
        joined_paths(a + b) == side_by_side(joined_paths(a), joined_paths(b)),
        all_plain(a + b) == (all_plain(a) && all_plain(b)),
{
    let all = a + b;
    if any_has_subclass_path(all) {
        let i = choose|i: int| 0 <= i < all.len() && has_subclass_path(#[trigger] all[i]);
        if i < a.len() {
            assert(has_subclass_path(a[i]));
        } else {
            assert(has_subclass_path(b[i - a.len()]));
        }
    }
    if any_has_subclass_path(a) {
        let i = choose|i: int| 0 <= i < a.len() && has_subclass_path(#[trigger] a[i]);
        assert(has_subclass_path(all[i]));
    }
    if any_has_subclass_path(b) {
        let i = choose|i: int| 0 <= i < b.len() && has_subclass_path(#[trigger] b[i]);
        assert(has_subclass_path(all[a.len() + i]));
    }
    lemma_paths_concat(a, b);
    if all_plain(all) {
        assert forall|i: int| 0 <= i < a.len() implies plain(#[trigger] a[i]) by {
            assert(plain(all[i]));
        }
        assert forall|i: int| 0 <= i < b.len() implies plain(#[trigger] b[i]) by {
            assert(plain(all[a.len() + i]));
        }
    }
    if all_plain(a) && all_plain(b) {
        assert forall|i: int| 0 <= i < all.len() implies plain(#[trigger] all[i]) by {
            if i < a.len() {
                assert(plain(a[i]));
            } else {
                assert(plain(b[i - a.len()]));
            }
        }
    }
    assert forall|v: Seq<char>| plans_variables(all).contains(v) == plans_variables(a).union(
        plans_variables(b),
    ).contains(v) by {
        if plans_variables(all).contains(v) {
            let i = choose|i: int|
                0 <= i < all.len() && plan_variables(#[trigger] all[i]).contains(v);
            if i < a.len() {
                assert(plan_variables(a[i]).contains(v));
            } else {
                assert(plan_variables(b[i - a.len()]).contains(v));
            }
        }
        if plans_variables(a).contains(v) {
            let i = choose|i: int| 0 <= i < a.len() && plan_variables(#[trigger] a[i]).contains(v);
            assert(plan_variables(all[i]).contains(v));
        }
        if plans_variables(b).contains(v) {
            let i = choose|i: int| 0 <= i < b.len() && plan_variables(#[trigger] b[i]).contains(v);
            assert(plan_variables(all[a.len() + i]).contains(v));
        }
    }
    assert(plans_variables(all) =~= plans_variables(a).union(plans_variables(b)));
    assert forall|v: Seq<char>| any_binds(all).contains(v) == any_binds(a).union(
        any_binds(b),
    ).contains(v) by {
        if any_binds(all).contains(v) {
            let i = choose|i: int| 0 <= i < all.len() && binds(#[trigger] all[i]).contains(v);
            if i < a.len() {
                assert(binds(a[i]).contains(v));
            } else {
                assert(binds(b[i - a.len()]).contains(v));
            }
        }
        if any_binds(a).contains(v) {
            let i = choose|i: int| 0 <= i < a.len() && binds(#[trigger] a[i]).contains(v);
            assert(binds(all[i]).contains(v));
        }
        if any_binds(b).contains(v) {
            let i = choose|i: int| 0 <= i < b.len() && binds(#[trigger] b[i]).contains(v);
            assert(binds(all[a.len() + i]).contains(v));
        }
    }
    assert(any_binds(all) =~= any_binds(a).union(any_binds(b)));
}

/// The operands of a nest of joins are steady where the nest is.
pub proof fn lemma_factors_steady(plan: Plan, late: Names, sure: Names)
    requires
        steady(plan, late, sure),
    ensures
        all_steady(join_factors(plan), late, sure),
    decreases plan,
{
    let fs = join_factors(plan);
    match plan {
        Plan::Join { left, right, .. } => {
            lemma_factors_steady(*left, late, sure);
            lemma_factors_steady(*right, late, sure);
            let (a, b) = (join_factors(*left), join_factors(*right));
            assert forall|i: int| 0 <= i < fs.len() implies steady(
                #[trigger] fs[i],
                late,
                sure,
            ) by {
                if i < a.len() {
                    assert(steady(a[i], late, sure));
                } else {
                    assert(steady(b[i - a.len()], late, sure));
                }
            }
        },
        _ => {
            assert(fs =~= seq![plan]);
        },
    }
}

/// The operands of a nest of joins have their scopes in order where the nest has.
pub proof fn lemma_factors_scoped(
    plan: Plan,
    sure: Names,
    outside: Names,
    late: Names,
    threshold: nat,
)
    requires
        scoped(plan, sure, outside, late, threshold),
    ensures
        all_joined_scoped(join_factors(plan), sure, outside, late, threshold),
    decreases plan,
{
    let fs = join_factors(plan);
    match plan {
        Plan::Join { left, right, .. } => {
            let (l, r) = (plan_variables(*left), plan_variables(*right));
            lemma_factors_scoped(*left, sure, outside, late.union(r), threshold);
            lemma_factors_scoped(*right, sure, outside, late.union(l), threshold);
            lemma_factor_names(*left);
            lemma_factor_names(*right);
            lemma_scoped_concat(
                join_factors(*left),
                join_factors(*right),
                sure,
                outside,
                late,
                threshold,
            );
        },
        _ => {
            assert(fs =~= seq![plan]);
            assert forall|i: int| 0 <= i < fs.len() implies scoped(
                #[trigger] fs[i],
                sure,
                outside,
                late.union(other_variables(fs, i)),
                threshold,
            ) by {
                assert(late.union(other_variables(fs, i)) =~= late);
            }
        },
    }
}

/// Two lists of joined plans, joined.
pub proof fn lemma_scoped_concat(
    a: Seq<Plan>,
    b: Seq<Plan>,
    sure: Names,
    outside: Names,
    late: Names,
    threshold: nat,
)
    requires
        all_joined_scoped(a, sure, outside, late.union(plans_variables(b)), threshold),
        all_joined_scoped(b, sure, outside, late.union(plans_variables(a)), threshold),
    ensures
        all_joined_scoped(a + b, sure, outside, late, threshold),
{
    let fs = a + b;
    assert forall|i: int| 0 <= i < fs.len() implies scoped(
        #[trigger] fs[i],
        sure,
        outside,
        late.union(other_variables(fs, i)),
        threshold,
    ) by {
        let (mine, theirs, k) = if i < a.len() {
            (a, b, i)
        } else {
            (b, a, i - a.len())
        };
        let old = late.union(plans_variables(theirs)).union(other_variables(mine, k));
        assert(scoped(mine[k], sure, outside, old, threshold));
        let new = late.union(other_variables(fs, i));
        assert(new.subset_of(old)) by {
            assert forall|v: Seq<char>| new.contains(v) implies old.contains(v) by {
                if !late.contains(v) {
                    let j = choose|j: int|
                        0 <= j < fs.len() && j != i && plan_variables(#[trigger] fs[j]).contains(
                            v,
                        );
                    if j < a.len() {
                        assert(plan_variables(a[j]).contains(v));
                    } else {
                        assert(plan_variables(b[j - a.len()]).contains(v));
                    }
                }
            }
        }
        lemma_scoped_more(fs[i], sure, outside, old, sure, outside, new, threshold);
    }
}

/// The plan that is built of some factors.
pub proof fn lemma_joined_tamed(factors: Seq<Plan>, threshold: nat)
    ensures
        tamed(joined(factors), factors, threshold),
    decreases factors.len(),
{
    let new = joined(factors);
    if factors.len() == 0 {
        assert(plan_variables(new) =~= set![]);
    } else if factors.len() == 1 {
        assert(factors =~= seq![new]);
        lemma_one(new);
        assert forall|v: Seq<char>| #[trigger] plan_variables(new).contains(v) implies
            plans_variables(factors).contains(v) by {
            assert(plan_variables(factors[0]).contains(v));
        }
        assert forall|sure: Names, outside: Names, late: Names|
            all_joined_scoped(factors, sure, outside, late, threshold) implies #[trigger] scoped(
            new,
            sure,
            outside,
            late,
            threshold,
        ) by {
            assert(scoped(
                factors[0],
                sure,
                outside,
                late.union(other_variables(factors, 0)),
                threshold,
            ));
            assert(late.union(other_variables(factors, 0)) =~= late);
        }
        assert forall|late: Names, sure: Names| all_steady(factors, late, sure) implies
            #[trigger] steady(new, late, sure) by {
            assert(steady(factors[0], late, sure));
        }
    } else {
        let shorter = factors.drop_last();
        let last = factors.last();
        let n = factors.len() - 1;
        lemma_joined_tamed(shorter, threshold);
        let before = joined(shorter);
        let raw = Plan::Join { left: Box::new(before), right: Box::new(last), keys: seq![] };
        lemma_join_tamer(before, last, seq![], threshold);
        assert(tamer(new, raw, threshold));
        assert(factors =~= shorter + seq![last]);
        lemma_names_concat(shorter, seq![last]);
        lemma_one(last);
        assert forall|late: Names, sure: Names| all_steady(factors, late, sure) implies
            #[trigger] steady(new, late, sure) by {
            assert(all_steady(shorter, late, sure)) by {
                assert forall|i: int| 0 <= i < shorter.len() implies steady(
                    #[trigger] shorter[i],
                    late,
                    sure,
                ) by {
                    assert(steady(factors[i], late, sure));
                }
            }
            assert(steady(before, late, sure));
            assert(steady(factors[n], late, sure));
            assert(steady(raw, late, sure));
        }
        assert forall|sure: Names, outside: Names, late: Names|
            all_joined_scoped(factors, sure, outside, late, threshold) implies #[trigger] scoped(
            new,
            sure,
            outside,
            late,
            threshold,
        ) by {
            lemma_scoped_without(factors, n, sure, outside, late, threshold);
            assert(factors.remove(n) =~= shorter);
            let wide = late.union(plan_variables(last));
            assert(scoped(before, sure, outside, wide, threshold));
            let old = late.union(other_variables(factors, n));
            assert(scoped(factors[n], sure, outside, old, threshold));
            let less = late.union(plan_variables(before));
            assert(less.subset_of(old)) by {
                assert forall|v: Seq<char>| less.contains(v) implies old.contains(v) by {
                    if !late.contains(v) {
                        assert(plans_variables(shorter).contains(v));
                        let j = choose|j: int|
                            0 <= j < shorter.len() && plan_variables(
                                #[trigger] shorter[j],
                            ).contains(v);
                        assert(plan_variables(factors[j]).contains(v));
                    }
                }
            }
            lemma_scoped_more(last, sure, outside, old, sure, outside, less, threshold);
            assert(scoped(raw, sure, outside, late, threshold));
        }
    }
}

/// Joined plans without one of them, which is joined with the others then.
pub proof fn lemma_scoped_without(
    plans: Seq<Plan>,
    index: int,
    sure: Names,
    outside: Names,
    late: Names,
    threshold: nat,
)
    requires
        0 <= index < plans.len(),
        all_joined_scoped(plans, sure, outside, late, threshold),
    ensures
        all_joined_scoped(
            plans.remove(index),
            sure,
            outside,
            late.union(plan_variables(plans[index])),
            threshold,
        ),
{
    let rest = plans.remove(index);
    let wide = late.union(plan_variables(plans[index]));
    assert forall|i: int| 0 <= i < rest.len() implies scoped(
        #[trigger] rest[i],
        sure,
        outside,
        wide.union(other_variables(rest, i)),
        threshold,
    ) by {
        let k = if i < index {
            i
        } else {
            i + 1
        };
        assert(rest[i] == plans[k]);
        let old = late.union(other_variables(plans, k));
        let new = wide.union(other_variables(rest, i));
        assert(scoped(plans[k], sure, outside, old, threshold));
        assert(new.subset_of(old)) by {
            assert forall|v: Seq<char>| new.contains(v) implies old.contains(v) by {
                if !late.contains(v) {
                    if plan_variables(plans[index]).contains(v) {
                        assert(other_variables(plans, k).contains(v));
                    } else {
                        let j = choose|j: int|
                            0 <= j < rest.len() && j != i && plan_variables(
                                #[trigger] rest[j],
                            ).contains(v);
                        let m = if j < index {
                            j
                        } else {
                            j + 1
                        };
                        assert(rest[j] == plans[m]);
                        assert(plan_variables(plans[m]).contains(v));
                    }
                }
            }
        }
        lemma_scoped_more(rest[i], sure, outside, old, sure, outside, new, threshold);
    }
}

/// Where a value is taken out.
proof fn lemma_remove_value(plans: Seq<Plan>, x: Plan) -> (i: int)
    requires
        plans.contains(x),
    ensures
        0 <= i < plans.len(),
        plans[i] == x,
        plans.remove_value(x) == plans.remove(i),
{
    plans.index_of_first_ensures(x);
    plans.index_of_first(x)->0
}

proof fn lemma_still_contains(plans: Seq<Plan>, x: Plan, y: Plan)
    requires
        plans.contains(x),
        x != y,
    ensures
        plans.remove_value(y).contains(x),
{
    plans.index_of_first_ensures(y);
    match plans.index_of_first(y) {
        Some(i) => {
            let k = choose|k: int| 0 <= k < plans.len() && plans[k] == x;
            let m = if k < i {
                k
            } else {
                k - 1
            };
            assert(plans.remove(i)[m] == x);
        },
        None => {},
    }
}

proof fn lemma_without_contains(factors: Seq<Plan>, common: Seq<Plan>, x: Plan)
    requires
        factors.contains(x),
        !common.contains(x),
    ensures
        without_common(factors, common).contains(x),
    decreases common.len(),
{
    if common.len() > 0 {
        let shorter = common.drop_last();
        assert(!shorter.contains(x)) by {
            if shorter.contains(x) {
                let k = choose|k: int| 0 <= k < shorter.len() && shorter[k] == x;
                assert(common[k] == x);
            }
        }
        assert(common[common.len() - 1] != x);
        lemma_without_contains(factors, shorter, x);
        lemma_still_contains(without_common(factors, shorter), x, common.last());
    }
}

/// Common factors: atoms that the branch has, none of them twice.
pub open spec fn are_common(factors: Seq<Plan>, common: Seq<Plan>) -> bool {
    &&& common.no_duplicates()
    &&& forall|k: int|
        0 <= k < common.len() ==> is_atom(#[trigger] common[k]) && factors.contains(common[k])
}

proof fn lemma_common_shorter(factors: Seq<Plan>, common: Seq<Plan>)
    requires
        are_common(factors, common),
        common.len() > 0,
    ensures
        are_common(factors, common.drop_last()),
        without_common(factors, common.drop_last()).contains(common.last()),
{
    let shorter = common.drop_last();
    assert forall|k: int| 0 <= k < shorter.len() implies is_atom(#[trigger] shorter[k])
        && factors.contains(shorter[k]) by {
        assert(is_atom(common[k]) && factors.contains(common[k]));
    }
    assert(is_atom(common[common.len() - 1]));
    assert(!shorter.contains(common.last())) by {
        if shorter.contains(common.last()) {
            let k = choose|k: int| 0 <= k < shorter.len() && shorter[k] == common.last();
            assert(common[k] == common[common.len() - 1]);
        }
    }
    lemma_without_contains(factors, shorter, common.last());
}

/// The factors are what is left, joined with the common ones.
proof fn lemma_without_eval(
    world: World,
    factors: Seq<Plan>,
    common: Seq<Plan>,
    input: Solution,
)
    requires
        regular(world),
        are_common(factors, common),
    ensures
        same(
            eval_join(world, factors, input),
            joined_bags(
                eval_join(world, without_common(factors, common), input),
                eval_join(world, common, input),
            ),
        ),
    decreases common.len(),
{
    let x = eval_join(world, factors, input);
    if common.len() == 0 {
        lemma_eval_join_extends(world, factors, input);
        lemma_join_unit(input, x);
    } else {
        let shorter = common.drop_last();
        let last = common.last();
        lemma_common_shorter(factors, common);
        lemma_without_eval(world, factors, shorter, input);
        let before = without_common(factors, shorter);
        let i = lemma_remove_value(before, last);
        lemma_eval_join_remove(world, before, i, input);
        let (a, b, c) = (
            eval_join(world, before.remove(i), input),
            eval(world, last, input),
            eval_join(world, shorter, input),
        );
        lemma_join_same(eval_join(world, before, input), c, joined_bags(a, b), c);
        lemma_join_assoc(a, b, c);
        lemma_join_commutes(b, c);
        lemma_join_same(a, joined_bags(b, c), a, joined_bags(c, b));
    }
}

/// Joining a union is the union of the joins.
pub proof fn lemma_distribute_union(
    world: World,
    parts: Seq<Plan>,
    wholes: Seq<Plan>,
    shared: Seq<Solution>,
    input: Solution,
)
    requires
        parts.len() == wholes.len(),
        forall|i: int|
            0 <= i < parts.len() ==> same(
                joined_bags(eval(world, #[trigger] parts[i], input), shared),
                eval(world, wholes[i], input),
            ),
    ensures
        same(
            joined_bags(eval_all(world, parts, input), shared),
            eval_all(world, wholes, input),
        ),
    decreases parts.len(),
{
    if parts.len() == 0 {
        lemma_join_nothing(shared);
        assert(eval_all(world, parts, input) =~= seq![]);
        assert(eval_all(world, wholes, input) =~= seq![]);
    } else {
        let (a, b) = (parts.drop_last(), wholes.drop_last());
        let n = parts.len() - 1;
        assert forall|i: int| 0 <= i < a.len() implies same(
            joined_bags(eval(world, #[trigger] a[i], input), shared),
            eval(world, b[i], input),
        ) by {
            assert(same(
                joined_bags(eval(world, parts[i], input), shared),
                eval(world, wholes[i], input),
            ));
        }
        lemma_distribute_union(world, a, b, shared, input);
        let (x, y) = (eval_all(world, a, input), eval(world, parts[n], input));
        lemma_join_splits(x, y, shared);
        lemma_same_concat(
            joined_bags(x, shared),
            joined_bags(y, shared),
            eval_all(world, b, input),
            eval(world, wholes[n], input),
        );
    }
}

/// What is found to be common is common to every branch.
proof fn lemma_common_factors(branch_factors: Seq<Seq<Plan>>, count: int, b: int)
    requires
        0 <= b < branch_factors.len(),
        count <= branch_factors[0].len(),
    ensures
        are_common(branch_factors[b], common_factors(branch_factors, count)),
    decreases count,
{
    if count > 0 {
        lemma_common_factors(branch_factors, count - 1, b);
        let before = common_factors(branch_factors, count - 1);
        let factor = branch_factors[0][count - 1];
        if is_atom(factor) && !before.contains(factor) && in_every(branch_factors, factor) {
            assert(branch_factors[b].contains(factor));
            let all = before.push(factor);
            assert forall|k: int| 0 <= k < all.len() implies is_atom(#[trigger] all[k])
                && branch_factors[b].contains(all[k]) by {
                if k < before.len() {
                    assert(is_atom(before[k]) && branch_factors[b].contains(before[k]));
                }
            }
            assert(all.no_duplicates()) by {
                assert forall|i: int, j: int|
                    0 <= i < all.len() && 0 <= j < all.len() && i != j implies all[i] != all[j] by {
                    if i == before.len() {
                        assert(before[j] == all[j]);
                    } else if j == before.len() {
                        assert(before[i] == all[i]);
                    }
                }
            }
        }
    }
}

/// Factoring out what the branches share keeps the solutions.
pub proof fn lemma_factor_common(world: World, branches: Seq<Plan>, input: Solution)
    requires
        regular(world),
    ensures
        same(
            eval(world, factor_common(branches), input),
            eval_all(world, branches, input),
        ),
{
    if branches.len() < 2 {
        lemma_union_all(world, branches, input);
    } else {
        let fs = factors_of_branches(branches);
        let common = common_factors(fs, fs[0].len() as int);
        let rests = reduced_branches(fs, common);
        let shared = eval_join(world, common, input);
        assert forall|b: int| 0 <= b < rests.len() implies same(
            joined_bags(eval(world, #[trigger] rests[b], input), shared),
            eval(world, branches[b], input),
        ) by {
            assert(fs[b] == join_factors(branches[b]));
            lemma_common_factors(fs, fs[0].len() as int, b);
            let rest = without_common(fs[b], common);
            assert(rests[b] == joined(rest));
            lemma_joined(world, rest, input);
            lemma_without_eval(world, fs[b], common, input);
            lemma_join_factors(world, branches[b], input);
            lemma_join_same(
                eval(world, joined(rest), input),
                shared,
                eval_join(world, rest, input),
                shared,
            );
        }
        lemma_distribute_union(world, rests, branches, shared, input);
        lemma_union_all(world, rests, input);
        lemma_joined_onto(world, union_all(rests), common, input);
    }
}

/// The paths of what is left of some joined plans, beside those of the common ones.
proof fn lemma_without_paths(factors: Seq<Plan>, common: Seq<Plan>)
    requires
        are_common(factors, common),
    ensures
        side_by_side(joined_paths(without_common(factors, common)), joined_paths(common)).subset_of(
            joined_paths(factors),
        ),
    decreases common.len(),
{
    let rest = without_common(factors, common);
    if common.len() == 0 {
        assert(all_paths(common) =~= set![]);
    } else {
        let shorter = common.drop_last();
        let last = common.last();
        lemma_common_shorter(factors, common);
        lemma_without_paths(factors, shorter);
        let before = without_common(factors, shorter);
        let i = lemma_remove_value(before, last);
        assert(rest == before.remove(i));
        assert(common =~= shorter + seq![last]);
        lemma_paths_concat(shorter, seq![last]);
        lemma_one(last);
        lemma_paths_remove(before, i);
        assert(side_by_side(joined_paths(rest), joined_paths(common)) =~= side_by_side(
            joined_paths(before),
            joined_paths(shorter),
        ));
    }
}

/// What is left of some joined plans, in its place beside the common ones.
#[verifier::spinoff_prover]
#[verifier::rlimit(30)]
proof fn lemma_without_scopes(factors: Seq<Plan>, common: Seq<Plan>, threshold: nat)
    requires
        are_common(factors, common),
    ensures
        plans_variables(without_common(factors, common)).subset_of(plans_variables(factors)),
        any_binds(factors).subset_of(
            any_binds(without_common(factors, common)).union(any_binds(common)),
        ),
        any_has_subclass_path(without_common(factors, common)) ==> any_has_subclass_path(factors),
        all_plain(factors) ==> all_plain(without_common(factors, common)),
        forall|late: Names, sure: Names|
            all_steady(factors, late, sure) ==> #[trigger] all_steady(
                without_common(factors, common),
                late,
                sure,
            ),
        forall|sure: Names, outside: Names, late: Names|
            all_joined_scoped(factors, sure, outside, late, threshold) ==> #[trigger] all_joined_scoped(
                without_common(factors, common),
                sure,
                outside,
                late.union(plans_variables(common)),
                threshold,
            ),
    decreases common.len(),
{
    let rest = without_common(factors, common);
    if common.len() == 0 {
        assert forall|sure: Names, outside: Names, late: Names|
            all_joined_scoped(
                factors,
                sure,
                outside,
                late,
                threshold,
            ) implies #[trigger] all_joined_scoped(
            rest,
            sure,
            outside,
            late.union(plans_variables(common)),
            threshold,
        ) by {
            assert(late.union(plans_variables(common)) =~= late);
        }
    } else {
        let shorter = common.drop_last();
        let last = common.last();
        lemma_common_shorter(factors, common);
        lemma_without_scopes(factors, shorter, threshold);
        let before = without_common(factors, shorter);
        let i = lemma_remove_value(before, last);
        assert(rest == before.remove(i));
        assert(common =~= shorter + seq![last]);
        lemma_names_concat(shorter, seq![last]);
        lemma_one(last);
        assert forall|v: Seq<char>| #[trigger] plans_variables(rest).contains(v) implies
            plans_variables(factors).contains(v) by {
            let j = choose|j: int|
                0 <= j < rest.len() && plan_variables(#[trigger] rest[j]).contains(v);
            let m = if j < i {
                j
            } else {
                j + 1
            };
            assert(rest[j] == before[m]);
            assert(plans_variables(before).contains(v));
        }
        if any_has_subclass_path(rest) {
            let j = choose|j: int| 0 <= j < rest.len() && has_subclass_path(#[trigger] rest[j]);
            let m = if j < i {
                j
            } else {
                j + 1
            };
            assert(rest[j] == before[m]);
            assert(has_subclass_path(before[m]));
            assert(any_has_subclass_path(before));
        }
        if all_plain(factors) {
            assert forall|j: int| 0 <= j < rest.len() implies plain(#[trigger] rest[j]) by {
                let m = if j < i {
                    j
                } else {
                    j + 1
                };
                assert(rest[j] == before[m]);
                assert(plain(before[m]));
            }
        }
        assert forall|v: Seq<char>| #[trigger] any_binds(before).contains(v) implies any_binds(
            rest,
        ).contains(v) || binds(last).contains(v) by {
            let m = choose|m: int|
                0 <= m < before.len() && binds(#[trigger] before[m]).contains(v);
            if m < i {
                assert(rest[m] == before[m]);
            } else if m > i {
                assert(rest[m - 1] == before[m]);
            }
        }
        assert forall|late: Names, sure: Names| all_steady(factors, late, sure) implies
            #[trigger] all_steady(rest, late, sure) by {
            assert(all_steady(before, late, sure));
            assert forall|j: int| 0 <= j < rest.len() implies steady(
                #[trigger] rest[j],
                late,
                sure,
            ) by {
                let m = if j < i {
                    j
                } else {
                    j + 1
                };
                assert(rest[j] == before[m]);
                assert(steady(before[m], late, sure));
            }
        }
        assert forall|sure: Names, outside: Names, late: Names|
            all_joined_scoped(
                factors,
                sure,
                outside,
                late,
                threshold,
            ) implies #[trigger] all_joined_scoped(
            rest,
            sure,
            outside,
            late.union(plans_variables(common)),
            threshold,
        ) by {
            let wide = late.union(plans_variables(shorter));
            assert(all_joined_scoped(before, sure, outside, wide, threshold));
            lemma_scoped_without(before, i, sure, outside, wide, threshold);
            assert(wide.union(plan_variables(last)) =~= late.union(plans_variables(common)));
        }
    }
}

/// Atoms joined onto a plan.
proof fn lemma_joined_onto_tamed(plan: Plan, common: Seq<Plan>, threshold: nat)
    requires
        forall|k: int| 0 <= k < common.len() ==> is_atom(#[trigger] common[k]),
    ensures
        plan_variables(joined_onto(plan, common)).subset_of(
            plan_variables(plan).union(plans_variables(common)),
        ),
        binds(plan).union(any_binds(common)).subset_of(binds(joined_onto(plan, common))),
        has_subclass_path(joined_onto(plan, common)) ==> has_subclass_path(plan)
            || any_has_subclass_path(common),
        plan_paths(joined_onto(plan, common)).subset_of(
            side_by_side(plan_paths(plan), joined_paths(common)),
        ),
        plain(plan) ==> plain(joined_onto(plan, common)),
        forall|late: Names, sure: Names|
            steady(plan, late, sure) ==> #[trigger] steady(
                joined_onto(plan, common),
                late,
                sure,
            ),
        forall|sure: Names, outside: Names, late: Names|
            scoped(plan, sure, outside, late.union(plans_variables(common)), threshold) ==> #[trigger] scoped(
                joined_onto(plan, common),
                sure,
                outside,
                late,
                threshold,
            ),
    decreases common.len(),
{
    let new = joined_onto(plan, common);
    if common.len() == 0 {
        assert forall|sure: Names, outside: Names, late: Names|
            scoped(plan, sure, outside, late.union(plans_variables(common)), threshold) implies
            #[trigger] scoped(new, sure, outside, late, threshold) by {
            assert(late.union(plans_variables(common)) =~= late);
        }
    } else {
        let shorter = common.drop_last();
        let last = common.last();
        assert(is_atom(common[common.len() - 1]));
        assert forall|k: int| 0 <= k < shorter.len() implies is_atom(#[trigger] shorter[k]) by {
            assert(is_atom(common[k]));
        }
        lemma_joined_onto_tamed(plan, shorter, threshold);
        let before = joined_onto(plan, shorter);
        let raw = Plan::Join { left: Box::new(before), right: Box::new(last), keys: seq![] };
        lemma_join_tamer(before, last, seq![], threshold);
        assert(common =~= shorter + seq![last]);
        lemma_names_concat(shorter, seq![last]);
        lemma_one(last);
        assert forall|late: Names, sure: Names| steady(plan, late, sure) implies
            #[trigger] steady(new, late, sure) by {
            assert(steady(before, late, sure));
            assert(steady(last, late, sure));
            assert(steady(raw, late, sure));
        }
        assert forall|sure: Names, outside: Names, late: Names|
            scoped(plan, sure, outside, late.union(plans_variables(common)), threshold) implies
            #[trigger] scoped(new, sure, outside, late, threshold) by {
            let wide = late.union(plan_variables(last));
            assert(wide.union(plans_variables(shorter)) =~= late.union(plans_variables(common)));
            assert(scoped(before, sure, outside, wide, threshold));
            assert(scoped(last, sure, outside, late.union(plan_variables(before)), threshold));
            assert(scoped(raw, sure, outside, late, threshold));
        }
    }
}

/// Factoring out what the branches share keeps the scopes in order.
#[verifier::spinoff_prover]
#[verifier::rlimit(40)]
pub proof fn lemma_factor_common_tamer(branches: Seq<Plan>, threshold: nat)
    ensures
        tamer(factor_common(branches), (Plan::Union { inner: branches }), threshold),
{
    let old = Plan::Union { inner: branches };
    lemma_union_tamer(branches, threshold);
    if branches.len() >= 2 {
        let fs = factors_of_branches(branches);
        let common = common_factors(fs, fs[0].len() as int);
        let rests = reduced_branches(fs, common);
        let union = Plan::Union { inner: rests };
        let new = factor_common(branches);
        lemma_union_tamer(rests, threshold);
        lemma_common_factors(fs, fs[0].len() as int, 0);
        lemma_joined_onto_tamed(union_all(rests), common, threshold);
        assert forall|b: int| 0 <= b < rests.len() implies rest_of(
            #[trigger] rests[b],
            branches[b],
            common,
            threshold,
        ) by {
            assert(fs[b] == join_factors(branches[b]));
            lemma_common_factors(fs, fs[0].len() as int, b);
            let rest = without_common(fs[b], common);
            assert(rests[b] == joined(rest));
            lemma_rest(branches[b], common, threshold);
        }
        assert(rests.len() == branches.len());
        assert forall|v: Seq<char>| #[trigger] plan_variables(new).contains(v) implies
            plan_variables(old).contains(v) by {
            if plans_variables(common).contains(v) {
                let k = choose|k: int|
                    0 <= k < common.len() && plan_variables(#[trigger] common[k]).contains(v);
                assert(fs[0].contains(common[k]));
                let m = choose|m: int| 0 <= m < fs[0].len() && fs[0][m] == common[k];
                assert(plan_variables(fs[0][m]).contains(v));
                assert(plans_variables(fs[0]).contains(v));
                assert(fs[0] == join_factors(branches[0]));
                lemma_factor_names(branches[0]);
                assert(plan_variables(branches[0]).contains(v));
            } else {
                assert(plan_variables(union_all(rests)).contains(v));
                assert(plans_variables(rests).contains(v));
                let b = choose|b: int|
                    0 <= b < rests.len() && plan_variables(#[trigger] rests[b]).contains(v);
                assert(rest_of(rests[b], branches[b], common, threshold));
                assert(plan_variables(branches[b]).contains(v));
            }
            assert(plans_variables(branches).contains(v));
        }
        if has_subclass_path(new) {
            if any_has_subclass_path(common) {
                let k = choose|k: int|
                    0 <= k < common.len() && has_subclass_path(#[trigger] common[k]);
                assert(fs[0].contains(common[k]));
                let m = choose|m: int| 0 <= m < fs[0].len() && fs[0][m] == common[k];
                assert(has_subclass_path(fs[0][m]));
                assert(fs[0] == join_factors(branches[0]));
                lemma_factor_names(branches[0]);
                assert(has_subclass_path(branches[0]));
            } else {
                assert(has_subclass_path(union_all(rests)));
                assert(has_subclass_path(union));
                assert(any_has_subclass_path(rests));
                let b = choose|b: int|
                    0 <= b < rests.len() && has_subclass_path(#[trigger] rests[b]);
                assert(rest_of(rests[b], branches[b], common, threshold));
                assert(has_subclass_path(branches[b]));
            }
            assert(any_has_subclass_path(branches));
        }
        assert forall|p: (Trace, bool)| #[trigger] plan_paths(new).contains(p) implies plan_paths(
            old,
        ).contains(p) by {
            let shared = joined_paths(common);
            let b = if shared.contains(p) {
                0
            } else {
                let q = if plan_paths(union_all(rests)).contains(p) {
                    p
                } else {
                    (p.0, false)
                };
                assert(plan_paths(union_all(rests)).contains(q));
                assert(plan_paths(union).contains(q));
                assert(all_paths(rests).contains(q));
                choose|b: int| 0 <= b < rests.len() && plan_paths(#[trigger] rests[b]).contains(q)
            };
            assert(rest_of(rests[b], branches[b], common, threshold));
            assert(side_by_side(plan_paths(rests[b]), shared).contains(p));
            assert(plan_paths(branches[b]).contains(p));
            assert(all_paths(branches).contains(p));
        }
        if plain(old) {
            assert(all_plain(branches));
            assert forall|b: int| 0 <= b < rests.len() implies plain(#[trigger] rests[b]) by {
                assert(rest_of(rests[b], branches[b], common, threshold));
                assert(plain(branches[b]));
            }
            assert(all_plain(rests));
            assert(plain(union));
        }
        assert(binds(old) == all_bind(branches) && binds(union) == all_bind(rests));
        assert forall|v: Seq<char>| #[trigger] binds(old).contains(v) implies binds(new).contains(
            v,
        ) by {
            if !any_binds(common).contains(v) {
                assert forall|b: int| 0 <= b < rests.len() implies binds(
                    #[trigger] rests[b],
                ).contains(v) by {
                    assert(rest_of(rests[b], branches[b], common, threshold));
                    assert(binds(branches[b]).contains(v));
                }
                assert(all_bind(rests).contains(v));
                assert(binds(union_all(rests)).contains(v));
            }
        }
        assert forall|late: Names, sure: Names| steady(old, late, sure) implies
            #[trigger] steady(new, late, sure) by {
            assert(all_steady(branches, late, sure));
            assert forall|b: int| 0 <= b < rests.len() implies steady(
                #[trigger] rests[b],
                late,
                sure,
            ) by {
                assert(rest_of(rests[b], branches[b], common, threshold));
                assert(steady(branches[b], late, sure));
            }
            assert(all_steady(rests, late, sure));
            assert(steady(union, late, sure));
            assert(steady(union_all(rests), late, sure));
        }
        assert forall|sure: Names, outside: Names, late: Names|
            scoped(old, sure, outside, late, threshold) implies #[trigger] scoped(
            new,
            sure,
            outside,
            late,
            threshold,
        ) by {
            assert(all_scoped(branches, sure, outside, late, threshold));
            let wide = late.union(plans_variables(common));
            assert forall|b: int| 0 <= b < rests.len() implies scoped(
                #[trigger] rests[b],
                sure,
                outside,
                wide,
                threshold,
            ) by {
                assert(rest_of(rests[b], branches[b], common, threshold));
                assert(scoped(branches[b], sure, outside, late, threshold));
            }
            assert(all_scoped(rests, sure, outside, wide, threshold));
            assert(scoped(union, sure, outside, wide, threshold));
            assert(scoped(union_all(rests), sure, outside, wide, threshold));
        }
    }
}

/// What is left of a branch beside the common factors.
spec fn rest_of(rest: Plan, branch: Plan, common: Seq<Plan>, threshold: nat) -> bool {
    &&& plan_variables(rest).subset_of(plan_variables(branch))
    &&& binds(branch).subset_of(binds(rest).union(any_binds(common)))
    &&& has_subclass_path(rest) ==> has_subclass_path(branch)
    &&& side_by_side(plan_paths(rest), joined_paths(common)).subset_of(plan_paths(branch))
    &&& plain(branch) ==> plain(rest)
    &&& forall|late: Names, sure: Names|
        steady(branch, late, sure) ==> #[trigger] steady(rest, late, sure)
    &&& forall|sure: Names, outside: Names, late: Names|
        #![trigger scoped(branch, sure, outside, late, threshold)]
        scoped(branch, sure, outside, late, threshold) ==> scoped(
            rest,
            sure,
            outside,
            late.union(plans_variables(common)),
            threshold,
        )
}

proof fn lemma_rest(branch: Plan, common: Seq<Plan>, threshold: nat)
    requires
        are_common(join_factors(branch), common),
    ensures
        rest_of(joined(without_common(join_factors(branch), common)), branch, common, threshold),
{
    let fs = join_factors(branch);
    let left = without_common(fs, common);
    let rest = joined(left);
    lemma_without_scopes(fs, common, threshold);
    lemma_without_paths(fs, common);
    lemma_joined_tamed(left, threshold);
    lemma_factor_names(branch);
    assert forall|late: Names, sure: Names| steady(branch, late, sure) implies
        #[trigger] steady(rest, late, sure) by {
        lemma_factors_steady(branch, late, sure);
        assert(all_steady(left, late, sure));
    }
    assert forall|sure: Names, outside: Names, late: Names|
        #![trigger scoped(branch, sure, outside, late, threshold)]
        scoped(branch, sure, outside, late, threshold) implies scoped(
        rest,
        sure,
        outside,
        late.union(plans_variables(common)),
        threshold,
    ) by {
        lemma_factors_scoped(branch, sure, outside, late, threshold);
        assert(all_joined_scoped(
            left,
            sure,
            outside,
            late.union(plans_variables(common)),
            threshold,
        ));
    }
}

} // verus!
