//! The operands of joins in one order, whatever order they come in.

use vstd::prelude::*;
use vstd::relations::{sorted_by, total_ordering};
use vstd::seq_lib::lemma_sorted_unique;

use crate::algebra::{plans_view, GraphPattern, Plan};
use crate::bags::{lemma_same_items, same};
use crate::factors::{flatten_inner_join_factors, join_all_factors, join_factors, joined};
use crate::plan_codes::{ints, lemma_plan_codes, plan_code, write_pattern};

verus! {

/// A number of a code, counted from the end: what a plan is comes before what it
/// consists of.
pub open spec fn from_end(code: Seq<int>, i: int) -> int {
    code[code.len() - 1 - i]
}

/// Whether a code is not behind another one, where their last numbers agree so
/// far.
pub open spec fn not_behind(a: Seq<int>, b: Seq<int>, agreed: int) -> bool
    decreases a.len() - agreed,
{
    if agreed < 0 || agreed >= a.len() {
        true
    } else if agreed >= b.len() {
        false
    } else if from_end(a, agreed) != from_end(b, agreed) {
        from_end(a, agreed) < from_end(b, agreed)
    } else {
        not_behind(a, b, agreed + 1)
    }
}

proof fn lemma_either_first(a: Seq<int>, b: Seq<int>, agreed: int)
    requires
        0 <= agreed,
    ensures
        not_behind(a, b, agreed) || not_behind(b, a, agreed),
    decreases a.len() - agreed,
{
    if agreed < a.len() && agreed < b.len() && from_end(a, agreed) == from_end(b, agreed) {
        lemma_either_first(a, b, agreed + 1);
    }
}

proof fn lemma_both_first(a: Seq<int>, b: Seq<int>, agreed: int)
    requires
        0 <= agreed <= a.len(),
        agreed <= b.len(),
        not_behind(a, b, agreed),
        not_behind(b, a, agreed),
    ensures
        a.len() == b.len(),
        forall|i: int| agreed <= i < a.len() ==> from_end(a, i) == from_end(b, i),
    decreases a.len() - agreed,
{
    if agreed < a.len() && agreed < b.len() {
        lemma_both_first(a, b, agreed + 1);
    }
}

proof fn lemma_first_of_three(a: Seq<int>, b: Seq<int>, c: Seq<int>, agreed: int)
    requires
        0 <= agreed,
        not_behind(a, b, agreed),
        not_behind(b, c, agreed),
    ensures
        not_behind(a, c, agreed),
    decreases a.len() - agreed,
{
    if agreed < a.len() && agreed < b.len() && agreed < c.len() && from_end(a, agreed) == from_end(
        b,
        agreed,
    )
        && from_end(b, agreed) == from_end(c, agreed) {
        lemma_first_of_three(a, b, c, agreed + 1);
    }
}

/// The order of plans: that of their codes.
pub open spec fn plan_order() -> spec_fn(Plan, Plan) -> bool {
    |a: Plan, b: Plan| not_behind(plan_code(a, seq![]), plan_code(b, seq![]), 0)
}

/// Every two plans have an order.
pub proof fn lemma_plan_order()
    ensures
        total_ordering(plan_order()),
{
    let r = plan_order();
    assert forall|x: Plan, y: Plan| #[trigger] r(x, y) || #[trigger] r(y, x) by {
        lemma_either_first(plan_code(x, seq![]), plan_code(y, seq![]), 0);
    }
    assert forall|x: Plan| #[trigger] r(x, x) by {
        assert(r(x, x) || r(x, x));
    }
    assert forall|x: Plan, y: Plan| #[trigger] r(x, y) && #[trigger] r(y, x) implies x == y by {
        let (a, b) = (plan_code(x, seq![]), plan_code(y, seq![]));
        lemma_both_first(a, b, 0);
        assert forall|i: int| 0 <= i < a.len() implies a[i] == b[i] by {
            assert(from_end(a, a.len() - 1 - i) == from_end(b, a.len() - 1 - i));
        }
        assert(a =~= b);
        lemma_plan_codes(x, y);
    }
    assert forall|x: Plan, y: Plan, z: Plan| #[trigger] r(x, y) && #[trigger] r(y, z) implies r(
        x,
        z,
    ) by {
        lemma_first_of_three(
            plan_code(x, seq![]),
            plan_code(y, seq![]),
            plan_code(z, seq![]),
            0,
        );
    }
}

/// Some plans in order.
pub open spec fn in_order(plans: Seq<Plan>) -> Seq<Plan> {
    plans.sort_by(plan_order())
}

/// Plans are in order with the same plans in another order.
pub proof fn lemma_in_order(plans: Seq<Plan>)
    ensures
        same(in_order(plans), plans),
        sorted_by(in_order(plans), plan_order()),
{
    lemma_plan_order();
    plans.lemma_sort_by_ensures(plan_order());
}

/// There is only one order of the same plans.
pub proof fn lemma_one_order(plans: Seq<Plan>, others: Seq<Plan>)
    requires
        same(plans, others),
    ensures
        in_order(plans) == in_order(others),
{
    lemma_plan_order();
    lemma_in_order(plans);
    lemma_in_order(others);
    lemma_sorted_unique(in_order(plans), in_order(others), plan_order());
}

/// The join of some plans, in order.
pub open spec fn arranged(factors: Seq<Plan>) -> Plan {
    joined(in_order(factors))
}

/// Whether the first code is not behind the second one.
fn comes_first(a: &Vec<u64>, b: &Vec<u64>) -> (r: bool)
    ensures
        r == not_behind(ints(a@), ints(b@), 0),
{
    let mut i: usize = 0;
    while i < a.len() && i < b.len() && a[a.len() - 1 - i] == b[b.len() - 1 - i]
        invariant
            i <= a.len(),
            i <= b.len(),
            not_behind(ints(a@), ints(b@), 0) == not_behind(ints(a@), ints(b@), i as int),
        decreases a.len() - i,
    {
        i += 1;
    }
    if i >= a.len() {
        true
    } else if i >= b.len() {
        false
    } else {
        a[a.len() - 1 - i] < b[b.len() - 1 - i]
    }
}

proof fn lemma_inserted(plans: Seq<Plan>, plan: Plan, at: int)
    requires
        0 <= at <= plans.len(),
        sorted_by(plans, plan_order()),
        forall|i: int| 0 <= i < at ==> plan_order()(#[trigger] plans[i], plan),
        forall|i: int| at <= i < plans.len() ==> plan_order()(plan, #[trigger] plans[i]),
    ensures
        sorted_by(plans.insert(at, plan), plan_order()),
        plans.insert(at, plan).to_multiset() == plans.to_multiset().insert(plan),
{
    broadcast use vstd::seq_lib::group_to_multiset_ensures;

    let all = plans.insert(at, plan);
    let leq = plan_order();
    assert forall|i: int, j: int| 0 <= i < j < all.len() implies #[trigger] leq(
        all[i],
        all[j],
    ) by {
        let m = if i < at {
            i
        } else {
            i - 1
        };
        let n = if j < at {
            j
        } else {
            j - 1
        };
        if i != at && j != at {
            assert(leq(plans[m], plans[n]));
        }
    }
    let (a, b) = (plans.take(at), plans.skip(at));
    assert(all =~= a + seq![plan] + b);
    assert(plans =~= a + b);
    vstd::seq_lib::lemma_multiset_commutative(a + seq![plan], b);
    vstd::seq_lib::lemma_multiset_commutative(a, seq![plan]);
    vstd::seq_lib::lemma_multiset_commutative(a, b);
    assert(seq![plan].to_multiset() =~= vstd::multiset::Multiset::singleton(plan));
    assert(all.to_multiset() =~= plans.to_multiset().insert(plan));
}

/// Puts some patterns in order.
fn put_in_order(patterns: Vec<GraphPattern>) -> (r: Vec<GraphPattern>)
    ensures
        plans_view(r@) == in_order(plans_view(patterns@)),
{
    let ghost given = plans_view(patterns@);
    let ghost leq = plan_order();
    let mut codes: Vec<Vec<u64>> = Vec::new();
    let mut result: Vec<GraphPattern> = Vec::new();
    proof {
        assert(given.take(0) =~= plans_view(result@));
    }
    for pattern in it: patterns
        invariant
            it.seq() == patterns@,
            given == plans_view(patterns@),
            leq == plan_order(),
            codes@.len() == result@.len(),
            forall|i: int|
                0 <= i < codes@.len() ==> ints((#[trigger] codes@[i])@) == plan_code(
                    plans_view(result@)[i],
                    seq![],
                ),
            sorted_by(plans_view(result@), plan_order()),
            plans_view(result@).to_multiset() == given.take(it.index() as int).to_multiset(),
    {
        let ghost n = it.index() as int;
        let ghost plan = pattern@;
        let ghost before = plans_view(result@);
        let ghost old_codes = codes@;
        let mut code: Vec<u64> = Vec::new();
        assert(ints(code@) =~= seq![]);
        write_pattern(&pattern, &mut code);
        let mut at: usize = 0;
        while at < codes.len() && comes_first(&codes[at], &code)
            invariant
                at <= codes.len(),
                codes@ == old_codes,
                before.len() == codes@.len(),
                ints(code@) == plan_code(plan, seq![]),
                forall|i: int|
                    0 <= i < codes@.len() ==> ints((#[trigger] codes@[i])@) == plan_code(
                        before[i],
                        seq![],
                    ),
                forall|i: int| 0 <= i < at ==> plan_order()(#[trigger] before[i], plan),
            ensures
                at <= codes.len(),
                forall|i: int| 0 <= i < at ==> plan_order()(#[trigger] before[i], plan),
                at < codes.len() ==> !plan_order()(before[at as int], plan),
            decreases codes.len() - at,
        {
            at += 1;
        }
        proof {
            lemma_plan_order();
            assert forall|i: int| at <= i < before.len() implies leq(
                plan,
                #[trigger] before[i],
            ) by {
                assert(leq(before[at as int], plan) || leq(plan, before[at as int]));
                if i > at {
                    assert(leq(before[at as int], before[i]));
                    assert(leq(plan, before[at as int]) && leq(before[at as int], before[i]));
                }
            }
            lemma_inserted(before, plan, at as int);
            broadcast use vstd::seq_lib::group_to_multiset_ensures;

            assert(given[n] == plan);
            assert(given.take(n + 1) =~= given.take(n).push(plan));
        }
        codes.insert(at, code);
        result.insert(at, pattern);
        assert(plans_view(result@) =~= before.insert(at as int, plan));
        assert forall|i: int| 0 <= i < codes@.len() implies ints((#[trigger] codes@[i])@)
            == plan_code(plans_view(result@)[i], seq![]) by {
            if i < at {
                assert(codes@[i] == old_codes[i]);
            } else if i > at {
                assert(codes@[i] == old_codes[i - 1]);
            }
        }
    }
    proof {
        assert(given.take(given.len() as int) =~= given);
        lemma_in_order(given);
        lemma_plan_order();
        lemma_sorted_unique(plans_view(result@), in_order(given), plan_order());
    }
    result
}

/// Joins two patterns, with all their operands in order.
pub fn arrange_join(left: GraphPattern, right: GraphPattern) -> (r: GraphPattern)
    ensures
        r@ == arranged(join_factors(left@) + join_factors(right@)),
{
    let mut factors: Vec<GraphPattern> = Vec::new();
    assert(plans_view(factors@) =~= seq![]);
    let ghost (l, r) = (left@, right@);
    flatten_inner_join_factors(left, &mut factors);
    flatten_inner_join_factors(right, &mut factors);
    assert(plans_view(factors@) =~= join_factors(l) + join_factors(r));
    let ordered = put_in_order(factors);
    proof {
        lemma_some_factor(l);
        lemma_in_order(join_factors(l) + join_factors(r));
        lemma_same_items(plans_view(ordered@), join_factors(l) + join_factors(r));
    }
    match join_all_factors(ordered) {
        Some(pattern) => pattern,
        None => GraphPattern::empty_singleton(),
    }
}

proof fn lemma_some_factor(plan: Plan)
    ensures
        join_factors(plan).len() > 0,
    decreases plan,
{
    if let Plan::Join { left, .. } = plan {
        lemma_some_factor(*left);
    }
}

} // verus!
