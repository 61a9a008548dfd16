//! Rewriting of joined plans: what keeps the solutions and the scopes.

use vstd::prelude::*;

use crate::algebra::Plan;
use crate::bags::{lemma_same_items, same};
use crate::builders::join;
use crate::factoring::{
    all_joined_scoped, any_binds, lemma_factor_names, lemma_factors_scoped, lemma_factors_steady,
    lemma_joined_tamed, lemma_names_concat, lemma_one, lemma_paths_remove, lemma_scoped_concat,
    other_variables, tamed,
};
use crate::factors::{join_factors, joined};
use crate::joins::{
    eval_join, lemma_eval_join_concat, lemma_eval_join_one, lemma_eval_join_remove,
    lemma_join_factors, lemma_joined,
};
use crate::lookups::{any_has_subclass_path, has_subclass_path};
use crate::normalize_laws::placed;
use crate::plan_laws::lemma_join;
use crate::plan_taming::lemma_join_tamer;
use crate::scope::binds;
use crate::scoping::{
    all_plain, all_steady, joined_paths, lemma_scoped_more, plain, plan_paths, scoped, steady,
    Names, Paths, Trace,
};
use crate::semantics::{eval, matches_once, regular, World};
use crate::solutions::{lemma_join_same, Solution};
use crate::taming::{lemma_tamer_trans, tamer};
use crate::type_inference::{distinct_variables, Types};
use crate::variables::{plan_variables, plans_variables};

verus! {

/// Joined plans that use no more than others, bind no less, and have their
/// scopes in order where the others have.
pub open spec fn list_tamed(new: Seq<Plan>, old: Seq<Plan>, threshold: nat) -> bool {
    &&& plans_variables(new).subset_of(plans_variables(old))
    &&& any_binds(old).subset_of(any_binds(new))
    &&& any_has_subclass_path(new) ==> any_has_subclass_path(old)
    &&& joined_paths(new).subset_of(joined_paths(old))
    &&& all_plain(old) ==> all_plain(new)
    &&& forall|late: Names, sure: Names|
        all_steady(old, late, sure) ==> #[trigger] all_steady(new, late, sure)
    &&& forall|sure: Names, outside: Names, late: Names|
        all_joined_scoped(old, sure, outside, late, threshold) ==> #[trigger] all_joined_scoped(
            new,
            sure,
            outside,
            late,
            threshold,
        )
}

/// Whether each match of the paths that are joined with themselves is there once.
/// Of predicates and repetitions it is in any case.
pub open spec fn each_once(world: World, paths: Paths) -> bool {
    forall|path: Plan| #[trigger]
        paths.contains((Trace::Path(path), true)) && !matches_once(path) ==> (world.atom)(path).no_duplicates()
}

pub proof fn lemma_once_less(world: World, less: Paths, more: Paths)
    requires
        each_once(world, more),
        less.subset_of(more),
    ensures
        each_once(world, less),
{
    assert forall|path: Plan| #[trigger]
        less.contains((Trace::Path(path), true)) && !matches_once(path) implies (world.atom)(
        path,
    ).no_duplicates() by {
        assert(more.contains((Trace::Path(path), true)));
    }
}

/// Whether joined plans have the solutions of others for an input, where the
/// others have their scopes in order.
pub open spec fn agrees(
    world: World,
    new: Seq<Plan>,
    old: Seq<Plan>,
    types: Types,
    input: Solution,
    sure: Names,
    outside: Names,
    late: Names,
    threshold: nat,
) -> bool {
    each_once(world, joined_paths(old)) && placed(input, types, outside) && sure.subset_of(
        input.dom(),
    ) && all_joined_scoped(old, sure, outside, late, threshold) ==> same(
        eval_join(world, new, input),
        eval_join(world, old, input),
    )
}

/// Whether some joined plans can stand for others, where the input has values of
/// given types.
pub open spec fn improves(world: World, new: Seq<Plan>, old: Seq<Plan>, types: Types, threshold: nat) -> bool {
    distinct_variables(types) ==> {
        &&& list_tamed(new, old, threshold)
        &&& forall|input: Solution, sure: Names, outside: Names, late: Names| #[trigger]
            agrees(world, new, old, types, input, sure, outside, late, threshold)
    }
}

/// Whether a plan has the solutions of another one for an input, where that one
/// has its scopes in order.
pub open spec fn preserved(
    world: World,
    new: Plan,
    old: Plan,
    types: Types,
    input: Solution,
    sure: Names,
    outside: Names,
    late: Names,
    threshold: nat,
) -> bool {
    each_once(world, plan_paths(old)) && placed(input, types, outside) && sure.subset_of(
        input.dom(),
    ) && scoped(old, sure, outside, late, threshold) ==> same(eval(world, new, input), eval(
        world,
        old,
        input,
    ))
}

/// Whether a plan can stand for another, where the input has values of given
/// types.
pub open spec fn better(world: World, new: Plan, old: Plan, types: Types, threshold: nat) -> bool {
    distinct_variables(types) ==> {
        &&& tamer(new, old, threshold)
        &&& forall|input: Solution, sure: Names, outside: Names, late: Names| #[trigger]
            preserved(world, new, old, types, input, sure, outside, late, threshold)
    }
}

pub proof fn lemma_improves_self(world: World, plans: Seq<Plan>, types: Types, threshold: nat)
    ensures
        improves(world, plans, plans, types, threshold),
{
}

pub proof fn lemma_list_trans(a: Seq<Plan>, b: Seq<Plan>, c: Seq<Plan>, threshold: nat)
    requires
        list_tamed(a, b, threshold),
        list_tamed(b, c, threshold),
    ensures
        list_tamed(a, c, threshold),
{
    assert forall|late: Names, sure: Names| all_steady(c, late, sure) implies
        #[trigger] all_steady(a, late, sure) by {
        assert(all_steady(b, late, sure));
    }
    assert forall|sure: Names, outside: Names, late: Names|
        all_joined_scoped(c, sure, outside, late, threshold) implies #[trigger] all_joined_scoped(
        a,
        sure,
        outside,
        late,
        threshold,
    ) by {
        assert(all_joined_scoped(b, sure, outside, late, threshold));
    }
}

pub proof fn lemma_improves_trans(
    world: World,
    a: Seq<Plan>,
    b: Seq<Plan>,
    c: Seq<Plan>,
    types: Types,
    threshold: nat,
)
    requires
        improves(world, a, b, types, threshold),
        improves(world, b, c, types, threshold),
    ensures
        improves(world, a, c, types, threshold),
{
    if distinct_variables(types) {
        lemma_list_trans(a, b, c, threshold);
        assert forall|input: Solution, sure: Names, outside: Names, late: Names| #[trigger]
            agrees(world, a, c, types, input, sure, outside, late, threshold) by {
            assert(agrees(world, a, b, types, input, sure, outside, late, threshold));
            assert(agrees(world, b, c, types, input, sure, outside, late, threshold));
            if all_joined_scoped(c, sure, outside, late, threshold) {
                assert(all_joined_scoped(b, sure, outside, late, threshold));
            }
        }
    }
}

/// What other plans of a list use is what the list without one plan uses.
pub proof fn lemma_other_variables(plans: Seq<Plan>, i: int)
    requires
        0 <= i < plans.len(),
    ensures
        other_variables(plans, i) == plans_variables(plans.remove(i)),
{
    let rest = plans.remove(i);
    assert forall|v: Seq<char>| other_variables(plans, i).contains(v) == plans_variables(
        rest,
    ).contains(v) by {
        if other_variables(plans, i).contains(v) {
            let j = choose|j: int|
                0 <= j < plans.len() && j != i && plan_variables(#[trigger] plans[j]).contains(v);
            let k = if j < i {
                j
            } else {
                j - 1
            };
            assert(rest[k] == plans[j]);
            assert(plan_variables(rest[k]).contains(v));
        }
        if plans_variables(rest).contains(v) {
            let k = choose|k: int|
                0 <= k < rest.len() && plan_variables(#[trigger] rest[k]).contains(v);
            let j = if k < i {
                k
            } else {
                k + 1
            };
            assert(rest[k] == plans[j]);
            assert(plan_variables(plans[j]).contains(v));
        }
    }
    assert(other_variables(plans, i) =~= plans_variables(rest));
}

/// Parts of a list of joined plans have their scopes in order beside each other.
pub proof fn lemma_scoped_split(
    a: Seq<Plan>,
    b: Seq<Plan>,
    sure: Names,
    outside: Names,
    late: Names,
    threshold: nat,
)
    requires
        all_joined_scoped(a + b, sure, outside, late, threshold),
    ensures
        all_joined_scoped(a, sure, outside, late.union(plans_variables(b)), threshold),
        all_joined_scoped(b, sure, outside, late.union(plans_variables(a)), threshold),
{
    let fs = a + b;
    assert forall|i: int| 0 <= i < a.len() implies scoped(
        #[trigger] a[i],
        sure,
        outside,
        late.union(plans_variables(b)).union(other_variables(a, i)),
        threshold,
    ) by {
        let old = late.union(other_variables(fs, i));
        let new = late.union(plans_variables(b)).union(other_variables(a, i));
        assert(scoped(fs[i], sure, outside, old, threshold));
        assert forall|v: Seq<char>| new.contains(v) implies old.contains(v) by {
            if plans_variables(b).contains(v) {
                let j = choose|j: int|
                    0 <= j < b.len() && plan_variables(#[trigger] b[j]).contains(v);
                assert(plan_variables(fs[a.len() + j]).contains(v));
            }
            if other_variables(a, i).contains(v) {
                let j = choose|j: int|
                    0 <= j < a.len() && j != i && plan_variables(#[trigger] a[j]).contains(v);
                assert(plan_variables(fs[j]).contains(v));
            }
        }
        lemma_scoped_more(a[i], sure, outside, old, sure, outside, new, threshold);
    }
    assert forall|i: int| 0 <= i < b.len() implies scoped(
        #[trigger] b[i],
        sure,
        outside,
        late.union(plans_variables(a)).union(other_variables(b, i)),
        threshold,
    ) by {
        let k = a.len() + i;
        let old = late.union(other_variables(fs, k));
        let new = late.union(plans_variables(a)).union(other_variables(b, i));
        assert(scoped(fs[k], sure, outside, old, threshold));
        assert forall|v: Seq<char>| new.contains(v) implies old.contains(v) by {
            if plans_variables(a).contains(v) {
                let j = choose|j: int|
                    0 <= j < a.len() && plan_variables(#[trigger] a[j]).contains(v);
                assert(plan_variables(fs[j]).contains(v));
            }
            if other_variables(b, i).contains(v) {
                let j = choose|j: int|
                    0 <= j < b.len() && j != i && plan_variables(#[trigger] b[j]).contains(v);
                assert(plan_variables(fs[a.len() + j]).contains(v));
            }
        }
        lemma_scoped_more(b[i], sure, outside, old, sure, outside, new, threshold);
    }
}

/// Joined plans where fewer variables may get a value late.
pub proof fn lemma_joined_scoped_less(
    plans: Seq<Plan>,
    sure: Names,
    outside: Names,
    late: Names,
    late2: Names,
    threshold: nat,
)
    requires
        all_joined_scoped(plans, sure, outside, late, threshold),
        late2.subset_of(late),
    ensures
        all_joined_scoped(plans, sure, outside, late2, threshold),
{
    assert forall|i: int| 0 <= i < plans.len() implies scoped(
        #[trigger] plans[i],
        sure,
        outside,
        late2.union(other_variables(plans, i)),
        threshold,
    ) by {
        let o = other_variables(plans, i);
        assert(scoped(plans[i], sure, outside, late.union(o), threshold));
        lemma_scoped_more(
            plans[i],
            sure,
            outside,
            late.union(o),
            sure,
            outside,
            late2.union(o),
            threshold,
        );
    }
}

pub proof fn lemma_steady_concat(
    a: Seq<Plan>,
    b: Seq<Plan>,
    late: Names,
    sure: Names,
    threshold: nat,
)
    ensures
        all_steady(a + b, late, sure) == (all_steady(a, late, sure) && all_steady(b, late, sure)),
{
    let fs = a + b;
    if all_steady(fs, late, sure) {
        assert forall|i: int| 0 <= i < a.len() implies steady(#[trigger] a[i], late, sure) by {
            assert(steady(fs[i], late, sure));
        }
        assert forall|i: int| 0 <= i < b.len() implies steady(#[trigger] b[i], late, sure) by {
            assert(steady(fs[a.len() + i], late, sure));
        }
    }
    if all_steady(a, late, sure) && all_steady(b, late, sure) {
        assert forall|i: int| 0 <= i < fs.len() implies steady(#[trigger] fs[i], late, sure) by {
            if i < a.len() {
                assert(steady(a[i], late, sure));
            } else {
                assert(steady(b[i - a.len()], late, sure));
            }
        }
    }
}

/// Two lists side by side.
pub proof fn lemma_list_concat(
    a1: Seq<Plan>,
    b1: Seq<Plan>,
    a2: Seq<Plan>,
    b2: Seq<Plan>,
    threshold: nat,
)
    requires
        list_tamed(a1, b1, threshold),
        list_tamed(a2, b2, threshold),
    ensures
        list_tamed(a1 + a2, b1 + b2, threshold),
{
    lemma_names_concat(a1, a2);
    lemma_names_concat(b1, b2);
    assert forall|late: Names, sure: Names| all_steady(b1 + b2, late, sure) implies
        #[trigger] all_steady(a1 + a2, late, sure) by {
        lemma_steady_concat(b1, b2, late, sure, threshold);
        lemma_steady_concat(a1, a2, late, sure, threshold);
        assert(all_steady(a1, late, sure));
        assert(all_steady(a2, late, sure));
    }
    assert forall|sure: Names, outside: Names, late: Names|
        all_joined_scoped(
            b1 + b2,
            sure,
            outside,
            late,
            threshold,
        ) implies #[trigger] all_joined_scoped(
        a1 + a2,
        sure,
        outside,
        late,
        threshold,
    ) by {
        lemma_scoped_split(b1, b2, sure, outside, late, threshold);
        let (w1, w2) = (late.union(plans_variables(b2)), late.union(plans_variables(b1)));
        assert(all_joined_scoped(a1, sure, outside, w1, threshold));
        assert(all_joined_scoped(a2, sure, outside, w2, threshold));
        lemma_joined_scoped_less(a1, sure, outside, w1, late.union(plans_variables(a2)), threshold);
        lemma_joined_scoped_less(a2, sure, outside, w2, late.union(plans_variables(a1)), threshold);
        lemma_scoped_concat(a1, a2, sure, outside, late, threshold);
    }
}

pub proof fn lemma_improves_concat(
    world: World,
    a1: Seq<Plan>,
    b1: Seq<Plan>,
    a2: Seq<Plan>,
    b2: Seq<Plan>,
    types: Types,
    threshold: nat,
)
    requires
        regular(world),
        improves(world, a1, b1, types, threshold),
        improves(world, a2, b2, types, threshold),
    ensures
        improves(world, a1 + a2, b1 + b2, types, threshold),
{
    if distinct_variables(types) {
        lemma_list_concat(a1, b1, a2, b2, threshold);
        assert forall|input: Solution, sure: Names, outside: Names, late: Names| #[trigger]
            agrees(world, a1 + a2, b1 + b2, types, input, sure, outside, late, threshold) by {
            if each_once(world, joined_paths(b1 + b2)) && placed(input, types, outside)
                && sure.subset_of(input.dom()) && all_joined_scoped(
                b1 + b2,
                sure,
                outside,
                late,
                threshold,
            ) {
                lemma_names_concat(b1, b2);
                lemma_once_less(world, joined_paths(b1), joined_paths(b1 + b2));
                lemma_once_less(world, joined_paths(b2), joined_paths(b1 + b2));
                lemma_scoped_split(b1, b2, sure, outside, late, threshold);
                let (w1, w2) = (late.union(plans_variables(b2)), late.union(plans_variables(b1)));
                assert(agrees(world, a1, b1, types, input, sure, outside, w1, threshold));
                assert(agrees(world, a2, b2, types, input, sure, outside, w2, threshold));
                lemma_eval_join_concat(world, a1, a2, input);
                lemma_eval_join_concat(world, b1, b2, input);
                lemma_join_same(
                    eval_join(world, a1, input),
                    eval_join(world, a2, input),
                    eval_join(world, b1, input),
                    eval_join(world, b2, input),
                );
            }
        }
    }
}

/// The same plans in another order.
pub proof fn lemma_eval_join_bag(world: World, a: Seq<Plan>, b: Seq<Plan>, input: Solution)
    requires
        regular(world),
        same(a, b),
    ensures
        same(eval_join(world, a, input), eval_join(world, b, input)),
    decreases a.len(),
{
    lemma_same_items(a, b);
    if a.len() > 0 {
        let x = a.last();
        assert(a.contains(x)) by {
            assert(a[a.len() - 1] == x);
        }
        let j = choose|j: int| 0 <= j < b.len() && b[j] == x;
        lemma_eval_join_remove(world, b, j, input);
        let rest = b.remove(j);
        lemma_same_remove(a, a.len() - 1, b, j);
        assert(a.remove(a.len() - 1) =~= a.drop_last());
        lemma_eval_join_bag(world, a.drop_last(), rest, input);
        lemma_join_same(
            eval_join(world, a.drop_last(), input),
            eval(world, x, input),
            eval_join(world, rest, input),
            eval(world, x, input),
        );
    }
}

/// Lists with the same plans, in any order, follow the same paths.
pub proof fn lemma_paths_bag(a: Seq<Plan>, b: Seq<Plan>)
    requires
        same(a, b),
    ensures
        joined_paths(a) == joined_paths(b),
    decreases a.len(),
{
    lemma_same_items(a, b);
    if a.len() > 0 {
        let n = a.len() - 1;
        assert(a.contains(a[n]));
        let j = choose|j: int| 0 <= j < b.len() && b[j] == a[n];
        lemma_same_remove(a, n, b, j);
        lemma_paths_bag(a.remove(n), b.remove(j));
        lemma_paths_remove(a, n);
        lemma_paths_remove(b, j);
    } else {
        assert(a =~= b);
    }
}

pub proof fn lemma_same_remove(a: Seq<Plan>, i: int, b: Seq<Plan>, j: int)
    requires
        same(a, b),
        0 <= i < a.len(),
        0 <= j < b.len(),
        a[i] == b[j],
    ensures
        same(a.remove(i), b.remove(j)),
{
    broadcast use vstd::seq_lib::group_to_multiset_ensures;

}

/// The same plans in another order are as tame.
pub proof fn lemma_list_bag(new: Seq<Plan>, old: Seq<Plan>, threshold: nat)
    requires
        same(new, old),
    ensures
        list_tamed(new, old, threshold),
{
    lemma_same_items(new, old);
    lemma_same_plans(new, old);
    lemma_paths_bag(new, old);
    assert forall|late: Names, sure: Names| all_steady(old, late, sure) implies
        #[trigger] all_steady(new, late, sure) by {
        assert forall|i: int| 0 <= i < new.len() implies steady(
            #[trigger] new[i],
            late,
            sure,
        ) by {
            assert(new.contains(new[i]));
            let j = choose|j: int| 0 <= j < old.len() && old[j] == new[i];
            assert(steady(old[j], late, sure));
        }
    }
    assert forall|sure: Names, outside: Names, late: Names|
        all_joined_scoped(old, sure, outside, late, threshold) implies #[trigger] all_joined_scoped(
        new,
        sure,
        outside,
        late,
        threshold,
    ) by {
        assert forall|i: int| 0 <= i < new.len() implies scoped(
            #[trigger] new[i],
            sure,
            outside,
            late.union(other_variables(new, i)),
            threshold,
        ) by {
            assert(new.contains(new[i]));
            let j = choose|j: int| 0 <= j < old.len() && old[j] == new[i];
            lemma_same_remove(new, i, old, j);
            lemma_other_variables(new, i);
            lemma_other_variables(old, j);
            lemma_same_items(new.remove(i), old.remove(j));
            lemma_same_plans(new.remove(i), old.remove(j));
            lemma_same_plans(old.remove(j), new.remove(i));
            assert(other_variables(new, i) =~= other_variables(old, j));
            assert(scoped(old[j], sure, outside, late.union(other_variables(old, j)), threshold));
        }
    }
}

pub proof fn lemma_improves_bag(
    world: World,
    new: Seq<Plan>,
    old: Seq<Plan>,
    types: Types,
    threshold: nat,
)
    requires
        regular(world),
        same(new, old),
    ensures
        improves(world, new, old, types, threshold),
{
    lemma_list_bag(new, old, threshold);
    assert forall|input: Solution, sure: Names, outside: Names, late: Names| #[trigger]
        agrees(world, new, old, types, input, sure, outside, late, threshold) by {
        lemma_eval_join_bag(world, new, old, input);
    }
}

/// Lists with the same plans use and bind the same.
pub proof fn lemma_same_plans(a: Seq<Plan>, b: Seq<Plan>)
    requires
        forall|x: Plan| #[trigger] a.contains(x) <==> b.contains(x),
    ensures
        plans_variables(a).subset_of(plans_variables(b)),
        any_binds(b).subset_of(any_binds(a)),
        any_has_subclass_path(a) ==> any_has_subclass_path(b),
        all_plain(b) ==> all_plain(a),
{
    assert forall|v: Seq<char>| #[trigger] plans_variables(a).contains(v) implies plans_variables(
        b,
    ).contains(v) by {
        let i = choose|i: int| 0 <= i < a.len() && plan_variables(#[trigger] a[i]).contains(v);
        assert(a.contains(a[i]));
        let j = choose|j: int| 0 <= j < b.len() && b[j] == a[i];
        assert(plan_variables(b[j]).contains(v));
    }
    assert forall|v: Seq<char>| #[trigger] any_binds(b).contains(v) implies any_binds(
        a,
    ).contains(v) by {
        let j = choose|j: int| 0 <= j < b.len() && binds(#[trigger] b[j]).contains(v);
        assert(b.contains(b[j]));
        assert(a.contains(b[j]));
        let i = choose|i: int| 0 <= i < a.len() && a[i] == b[j];
        assert(binds(a[i]).contains(v));
    }
    if any_has_subclass_path(a) {
        let i = choose|i: int| 0 <= i < a.len() && has_subclass_path(#[trigger] a[i]);
        assert(a.contains(a[i]));
        let j = choose|j: int| 0 <= j < b.len() && b[j] == a[i];
        assert(has_subclass_path(b[j]));
    }
    if all_plain(b) {
        assert forall|i: int| 0 <= i < a.len() implies plain(#[trigger] a[i]) by {
            assert(a.contains(a[i]));
            let j = choose|j: int| 0 <= j < b.len() && b[j] == a[i];
            assert(plain(b[j]));
        }
    }
}

/// One plan by itself.
pub proof fn lemma_one_scoped(plan: Plan, sure: Names, outside: Names, late: Names, threshold: nat)
    ensures
        all_joined_scoped(seq![plan], sure, outside, late, threshold) == scoped(
            plan,
            sure,
            outside,
            late,
            threshold,
        ),
{
    let one = seq![plan];
    assert(late.union(other_variables(one, 0)) =~= late);
    assert(one[0] == plan);
}

pub proof fn lemma_one_tamed(plan: Plan, factors: Seq<Plan>, threshold: nat)
    ensures
        tamed(plan, factors, threshold) == list_tamed(seq![plan], factors, threshold),
{
    let one = seq![plan];
    lemma_one(plan);
    if tamed(plan, factors, threshold) {
        assert forall|late: Names, sure: Names| all_steady(factors, late, sure) implies
            #[trigger] all_steady(one, late, sure) by {
            assert(steady(plan, late, sure));
        }
        assert forall|sure: Names, outside: Names, late: Names|
            all_joined_scoped(
                factors,
                sure,
                outside,
                late,
                threshold,
            ) implies #[trigger] all_joined_scoped(
            one,
            sure,
            outside,
            late,
            threshold,
        ) by {
            assert(scoped(plan, sure, outside, late, threshold));
            lemma_one_scoped(plan, sure, outside, late, threshold);
        }
    }
    if list_tamed(one, factors, threshold) {
        assert forall|late: Names, sure: Names| all_steady(factors, late, sure) implies
            #[trigger] steady(plan, late, sure) by {
            assert(all_steady(one, late, sure));
            assert(steady(one[0], late, sure));
        }
        assert forall|sure: Names, outside: Names, late: Names|
            all_joined_scoped(factors, sure, outside, late, threshold) implies #[trigger] scoped(
            plan,
            sure,
            outside,
            late,
            threshold,
        ) by {
            assert(all_joined_scoped(one, sure, outside, late, threshold));
            lemma_one_scoped(plan, sure, outside, late, threshold);
        }
    }
}

pub proof fn lemma_tamer_one(new: Plan, old: Plan, threshold: nat)
    ensures
        tamer(new, old, threshold) == tamed(new, seq![old], threshold),
{
    let one = seq![old];
    lemma_one(old);
    assert(one[0] == old);
    assert forall|late: Names, sure: Names| #[trigger]
        all_steady(one, late, sure) == steady(old, late, sure) by {
        if steady(old, late, sure) {
            assert(all_steady(one, late, sure));
        }
        if all_steady(one, late, sure) {
            assert(steady(one[0], late, sure));
        }
    }
    assert forall|sure: Names, outside: Names, late: Names| #[trigger]
        all_joined_scoped(one, sure, outside, late, threshold) == scoped(
            old,
            sure,
            outside,
            late,
            threshold,
        ) by {
        lemma_one_scoped(old, sure, outside, late, threshold);
    }
    if tamer(new, old, threshold) {
        assert forall|late: Names, sure: Names| all_steady(one, late, sure) implies
            #[trigger] steady(new, late, sure) by {
            assert(steady(old, late, sure));
        }
        assert forall|sure: Names, outside: Names, late: Names|
            all_joined_scoped(one, sure, outside, late, threshold) implies #[trigger] scoped(
            new,
            sure,
            outside,
            late,
            threshold,
        ) by {
            assert(scoped(old, sure, outside, late, threshold));
        }
    }
    if tamed(new, one, threshold) {
        assert forall|late: Names, sure: Names| steady(old, late, sure) implies
            #[trigger] steady(new, late, sure) by {
            assert(all_steady(one, late, sure));
        }
        assert forall|sure: Names, outside: Names, late: Names|
            scoped(old, sure, outside, late, threshold) implies #[trigger] scoped(
            new,
            sure,
            outside,
            late,
            threshold,
        ) by {
            assert(all_joined_scoped(one, sure, outside, late, threshold));
        }
    }
}

/// A better plan is a better list of one plan.
pub proof fn lemma_better_one(world: World, new: Plan, old: Plan, types: Types, threshold: nat)
    requires
        regular(world),
    ensures
        better(world, new, old, types, threshold) == improves(
            world,
            seq![new],
            seq![old],
            types,
            threshold,
        ),
{
    let (a, b) = (seq![new], seq![old]);
    lemma_one_tamed(new, b, threshold);
    lemma_tamer_one(new, old, threshold);
    assert forall|input: Solution, sure: Names, outside: Names, late: Names| #[trigger]
        agrees(world, a, b, types, input, sure, outside, late, threshold) == preserved(
            world,
            new,
            old,
            types,
            input,
            sure,
            outside,
            late,
            threshold,
        ) by {
        lemma_one_scoped(old, sure, outside, late, threshold);
        lemma_one(old);
        lemma_eval_join_one(world, new, input);
        lemma_eval_join_one(world, old, input);
    }
    if distinct_variables(types) {
        if better(world, new, old, types, threshold) {
            assert forall|input: Solution, sure: Names, outside: Names, late: Names| #[trigger]
                agrees(world, a, b, types, input, sure, outside, late, threshold) by {
                assert(preserved(world, new, old, types, input, sure, outside, late, threshold));
            }
        }
        if improves(world, a, b, types, threshold) {
            assert forall|input: Solution, sure: Names, outside: Names, late: Names| #[trigger]
                preserved(world, new, old, types, input, sure, outside, late, threshold) by {
                assert(agrees(world, a, b, types, input, sure, outside, late, threshold));
            }
        }
    }
}

pub proof fn lemma_better_trans(
    world: World,
    a: Plan,
    b: Plan,
    c: Plan,
    types: Types,
    threshold: nat,
)
    requires
        better(world, a, b, types, threshold),
        better(world, b, c, types, threshold),
    ensures
        better(world, a, c, types, threshold),
{
    if distinct_variables(types) {
        lemma_tamer_trans(a, b, c, threshold);
        assert forall|input: Solution, sure: Names, outside: Names, late: Names| #[trigger]
            preserved(world, a, c, types, input, sure, outside, late, threshold) by {
            assert(preserved(world, a, b, types, input, sure, outside, late, threshold));
            assert(preserved(world, b, c, types, input, sure, outside, late, threshold));
            if scoped(c, sure, outside, late, threshold) {
                assert(scoped(b, sure, outside, late, threshold));
            }
        }
    }
}

/// Joined plans that are better one by one.
pub proof fn lemma_improves_each(
    world: World,
    new: Seq<Plan>,
    old: Seq<Plan>,
    types: Types,
    threshold: nat,
)
    requires
        regular(world),
        new.len() == old.len(),
        forall|i: int| 0 <= i < new.len() ==> better(
            world,
            #[trigger] new[i],
            old[i],
            types,
            threshold,
        ),
    ensures
        improves(world, new, old, types, threshold),
    decreases new.len(),
{
    if new.len() == 0 {
        assert(new =~= old);
    } else {
        let n = new.len() - 1;
        let (a, b) = (new.drop_last(), old.drop_last());
        assert forall|i: int| 0 <= i < a.len() implies better(
            world,
            #[trigger] a[i],
            b[i],
            types,
            threshold,
        ) by {
            assert(better(world, new[i], old[i], types, threshold));
        }
        lemma_improves_each(world, a, b, types, threshold);
        assert(better(world, new[n], old[n], types, threshold));
        lemma_better_one(world, new[n], old[n], types, threshold);
        lemma_improves_concat(world, a, b, seq![new[n]], seq![old[n]], types, threshold);
        assert(a + seq![new[n]] =~= new);
        assert(b + seq![old[n]] =~= old);
    }
}

/// A nest of joins stands for its operands.
proof fn lemma_nest_tamed(plan: Plan, threshold: nat)
    ensures
        tamed(plan, join_factors(plan), threshold),
    decreases plan,
{
    let fs = join_factors(plan);
    lemma_factor_names(plan);
    match plan {
        Plan::Join { left, right, .. } => {
            let (a, b) = (join_factors(*left), join_factors(*right));
            lemma_nest_tamed(*left, threshold);
            lemma_nest_tamed(*right, threshold);
            lemma_factor_names(*left);
            lemma_factor_names(*right);
            assert forall|late: Names, sure: Names| all_steady(fs, late, sure) implies
                #[trigger] steady(plan, late, sure) by {
                lemma_steady_concat(a, b, late, sure, threshold);
                assert(steady(*left, late, sure));
                assert(steady(*right, late, sure));
            }
            assert forall|sure: Names, outside: Names, late: Names|
                all_joined_scoped(fs, sure, outside, late, threshold) implies #[trigger] scoped(
                plan,
                sure,
                outside,
                late,
                threshold,
            ) by {
                lemma_scoped_split(a, b, sure, outside, late, threshold);
                assert(scoped(*left, sure, outside, late.union(plan_variables(*right)), threshold));
                assert(scoped(*right, sure, outside, late.union(plan_variables(*left)), threshold));
            }
        },
        _ => {
            assert(fs =~= seq![plan]);
            lemma_tamer_one(plan, plan, threshold);
        },
    }
}

pub proof fn lemma_nest_improves(world: World, plan: Plan, types: Types, threshold: nat)
    requires
        regular(world),
    ensures
        improves(world, seq![plan], join_factors(plan), types, threshold),
        improves(world, join_factors(plan), seq![plan], types, threshold),
{
    let fs = join_factors(plan);
    let one = seq![plan];
    lemma_nest_tamed(plan, threshold);
    lemma_one_tamed(plan, fs, threshold);
    lemma_factor_names(plan);
    lemma_one(plan);
    assert(list_tamed(fs, one, threshold)) by {
        assert forall|late: Names, sure: Names| all_steady(one, late, sure) implies
            #[trigger] all_steady(fs, late, sure) by {
            assert(steady(one[0], late, sure));
            lemma_factors_steady(plan, late, sure);
        }
        assert forall|sure: Names, outside: Names, late: Names|
            all_joined_scoped(
                one,
                sure,
                outside,
                late,
                threshold,
            ) implies #[trigger] all_joined_scoped(
            fs,
            sure,
            outside,
            late,
            threshold,
        ) by {
            lemma_one_scoped(plan, sure, outside, late, threshold);
            lemma_factors_scoped(plan, sure, outside, late, threshold);
        }
    }
    assert forall|input: Solution, sure: Names, outside: Names, late: Names| #[trigger]
        agrees(world, one, fs, types, input, sure, outside, late, threshold) by {
        lemma_join_factors(world, plan, input);
        lemma_eval_join_one(world, plan, input);
    }
    assert forall|input: Solution, sure: Names, outside: Names, late: Names| #[trigger]
        agrees(world, fs, one, types, input, sure, outside, late, threshold) by {
        lemma_join_factors(world, plan, input);
        lemma_eval_join_one(world, plan, input);
    }
}

pub proof fn lemma_joined_improves(world: World, factors: Seq<Plan>, types: Types, threshold: nat)
    requires
        regular(world),
    ensures
        improves(world, seq![joined(factors)], factors, types, threshold),
{
    let plan = joined(factors);
    lemma_joined_tamed(factors, threshold);
    lemma_one_tamed(plan, factors, threshold);
    assert forall|input: Solution, sure: Names, outside: Names, late: Names| #[trigger]
        agrees(world, seq![plan], factors, types, input, sure, outside, late, threshold) by {
        lemma_joined(world, factors, input);
        lemma_eval_join_one(world, plan, input);
    }
}

/// A join of two plans stands for them.
pub proof fn lemma_join_improves(
    world: World,
    left: Plan,
    right: Plan,
    keys: Seq<Seq<char>>,
    types: Types,
    threshold: nat,
)
    requires
        regular(world),
    ensures
        improves(world, seq![join(left, right, keys)], seq![left, right], types, threshold),
{
    let raw = Plan::Join { left: Box::new(left), right: Box::new(right), keys };
    let new = join(left, right, keys);
    lemma_join_tamer(left, right, keys, threshold);
    assert(better(world, new, raw, types, threshold)) by {
        assert forall|input: Solution, sure: Names, outside: Names, late: Names| #[trigger]
            preserved(world, new, raw, types, input, sure, outside, late, threshold) by {
            lemma_join(world, left, right, keys, input);
        }
    }
    lemma_better_one(world, new, raw, types, threshold);
    lemma_nest_improves(world, raw, types, threshold);
    lemma_improves_trans(world, seq![new], seq![raw], join_factors(raw), types, threshold);
    lemma_nest_improves(world, left, types, threshold);
    lemma_nest_improves(world, right, types, threshold);
    lemma_unfold(world, left, right, types, threshold);
    lemma_improves_trans(world, seq![new], join_factors(raw), seq![left, right], types, threshold);
}

pub proof fn lemma_unfold(world: World, left: Plan, right: Plan, types: Types, threshold: nat)
    requires
        regular(world),
    ensures
        improves(
            world,
            join_factors(left) + join_factors(right),
            seq![left, right],
            types,
            threshold,
        ),
{
    lemma_nest_improves(world, left, types, threshold);
    lemma_nest_improves(world, right, types, threshold);
    lemma_improves_concat(
        world,
        join_factors(left),
        seq![left],
        join_factors(right),
        seq![right],
        types,
        threshold,
    );
    assert(seq![left] + seq![right] =~= seq![left, right]);
}

} // verus!
