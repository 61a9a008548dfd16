//! The factors of a join and the branches of a union.

use vstd::prelude::*;

use crate::algebra::{is_atom, plans_view, same_as_atom, GraphPattern, JoinAlgorithm, Plan};
use crate::builders::{empty_singleton, is_empty_singleton, join, union_all};
use crate::term::{names, Variable};

verus! {

/// The operands of a nest of inner joins, from left to right.
pub open spec fn join_factors(plan: Plan) -> Seq<Plan>
    decreases plan,
{
    match plan {
        Plan::Join { left, right, .. } => join_factors(*left) + join_factors(*right),
        _ => seq![plan],
    }
}

/// The join of some plans, from left to right and without keys.
pub open spec fn joined(factors: Seq<Plan>) -> Plan
    decreases factors.len(),
{
    if factors.len() == 0 {
        empty_singleton()
    } else if factors.len() == 1 {
        factors[0]
    } else {
        join(joined(factors.drop_last()), factors.last(), seq![])
    }
}

/// A plan joined with some others, one after the other.
pub open spec fn joined_onto(plan: Plan, factors: Seq<Plan>) -> Plan
    decreases factors.len(),
{
    if factors.len() == 0 {
        plan
    } else {
        join(joined_onto(plan, factors.drop_last()), factors.last(), seq![])
    }
}

/// The branches that are not the table with one row and no values.
pub open spec fn non_singletons(branches: Seq<Plan>) -> Seq<Plan> {
    branches.filter(|branch: Plan| !is_empty_singleton(branch))
}

/// A union that has the table with one row and no values as a branch: how
/// often, and its other branches.
pub open spec fn split_singletons(plan: Plan) -> Option<(nat, Seq<Plan>)> {
    match plan {
        Plan::Union { inner } => {
            let others = non_singletons(inner);
            if others.len() < inner.len() {
                Some(((inner.len() - others.len()) as nat, others))
            } else {
                None
            }
        },
        _ => None,
    }
}

/// The atoms among the first `count` factors of the first branch that every
/// branch has as a factor, each of them once.
pub open spec fn common_factors(branch_factors: Seq<Seq<Plan>>, count: int) -> Seq<Plan>
    decreases count,
{
    if count <= 0 {
        seq![]
    } else {
        let before = common_factors(branch_factors, count - 1);
        let factor = branch_factors[0][count - 1];
        if is_atom(factor) && !before.contains(factor) && in_every(branch_factors, factor) {
            before.push(factor)
        } else {
            before
        }
    }
}

pub open spec fn in_every(branch_factors: Seq<Seq<Plan>>, factor: Plan) -> bool {
    forall|b: int| 0 <= b < branch_factors.len() ==> (#[trigger] branch_factors[b]).contains(factor)
}

/// Some factors without the first occurrence of each of the common ones.
pub open spec fn without_common(factors: Seq<Plan>, common: Seq<Plan>) -> Seq<Plan>
    decreases common.len(),
{
    if common.len() == 0 {
        factors
    } else {
        without_common(factors, common.drop_last()).remove_value(common.last())
    }
}

/// The factors of each branch.
pub open spec fn factors_of_branches(branches: Seq<Plan>) -> Seq<Seq<Plan>> {
    branches.map_values(|branch: Plan| join_factors(branch))
}

/// What is left of each branch without the common factors.
pub open spec fn reduced_branches(branch_factors: Seq<Seq<Plan>>, common: Seq<Plan>) -> Seq<Plan> {
    branch_factors.map_values(|factors: Seq<Plan>| joined(without_common(factors, common)))
}

/// The union of some branches, joined with the atoms that all of them share.
pub open spec fn factor_common(branches: Seq<Plan>) -> Plan {
    if branches.len() < 2 {
        union_all(branches)
    } else {
        let branch_factors = factors_of_branches(branches);
        let common = common_factors(branch_factors, branch_factors[0].len() as int);
        joined_onto(union_all(reduced_branches(branch_factors, common)), common)
    }
}

/// A join has a factor.
pub proof fn lemma_has_factor(plan: Plan)
    ensures
        join_factors(plan).len() > 0,
    decreases plan,
{
    match plan {
        Plan::Join { left, right, .. } => {
            lemma_has_factor(*left);
        },
        _ => {},
    }
}

/// The factors of a join are smaller than the join.
pub proof fn lemma_factors_decrease(plan: Plan, i: int)
    requires
        0 <= i < join_factors(plan).len(),
    ensures
        plan is Join ==> decreases_to!(plan => join_factors(plan)[i]),
        plan !is Join ==> join_factors(plan)[i] == plan,
    decreases plan,
{
    match plan {
        Plan::Join { left, right, .. } => {
            let n = join_factors(*left).len();
            if i < n {
                lemma_factors_decrease(*left, i);
                assert(join_factors(plan)[i] == join_factors(*left)[i]);
            } else {
                lemma_factors_decrease(*right, i - n);
                assert(join_factors(plan)[i] == join_factors(*right)[i - n]);
            }
        },
        _ => {},
    }
}

/// Whether equal factors of a join can be merged into one.
pub fn can_deduplicate_join_factor(pattern: &GraphPattern) -> (r: bool)
    ensures
        r == is_atom(pattern@),
{
    matches!(
        pattern,
        GraphPattern::QuadPattern { .. } | GraphPattern::Path { .. } | GraphPattern::Graph { .. }
    )
}

/// Adds the operands of a nest of inner joins, from left to right.
pub fn flatten_inner_join_factors(pattern: GraphPattern, factors: &mut Vec<GraphPattern>)
    ensures
        plans_view(final(factors)@) == plans_view(old(factors)@) + join_factors(pattern@),
    decreases pattern,
{
    let ghost before = factors@;
    match pattern {
        GraphPattern::Join { left, right, .. } => {
            let ghost (l, r) = (*left, *right);
            flatten_inner_join_factors(*left, factors);
            flatten_inner_join_factors(*right, factors);
            assert(plans_view(factors@) =~= plans_view(before) + (join_factors(l@) + join_factors(
                r@,
            )));
        },
        other => {
            let ghost plan = other@;
            factors.push(other);
            assert(join_factors(plan) =~= seq![plan]);
            assert(plans_view(factors@) =~= plans_view(before) + seq![plan]);
        },
    }
}

/// An inner join by hash that starts without keys.
fn keyless() -> (r: JoinAlgorithm)
    ensures
        r@ == Seq::<Seq<char>>::empty(),
{
    let keys: Vec<Variable> = Vec::new();
    assert(names(keys@) =~= seq![]);
    JoinAlgorithm::HashBuildLeftProbeRight { keys }
}

/// The join of some patterns, from left to right, if there is one.
pub fn join_all_factors(factors: Vec<GraphPattern>) -> (r: Option<GraphPattern>)
    ensures
        r is Some == (factors@.len() > 0),
        r matches Some(pattern) ==> pattern@ == joined(plans_view(factors@)),
{
    let ghost given = plans_view(factors@);
    let mut result: Option<GraphPattern> = None;
    for factor in it: factors
        invariant
            it.seq() == factors@,
            given == plans_view(factors@),
            result is Some == (it.index() > 0),
            result matches Some(pattern) ==> pattern@ == joined(given.take(it.index() as int)),
    {
        let ghost n = it.index() as int;
        proof {
            assert(given[n] == factor@);
            assert(given.take(n + 1).drop_last() =~= given.take(n));
        }
        result = match result {
            None => Some(factor),
            Some(left) => Some(GraphPattern::join(left, factor, keyless())),
        };
    }
    assert(given.take(given.len() as int) =~= given);
    result
}

/// The join of some patterns; the table with one row and no values where there
/// is none.
fn join_all_or_singleton(factors: Vec<GraphPattern>) -> (r: GraphPattern)
    ensures
        r@ == joined(plans_view(factors@)),
{
    match join_all_factors(factors) {
        Some(pattern) => pattern,
        None => GraphPattern::empty_singleton(),
    }
}

/// A union that has the table with one row and no values as a branch: how
/// often, and its other branches.
pub fn split_singleton_union_branches(pattern: &GraphPattern) -> (r: Option<
    (usize, Vec<GraphPattern>),
>)
    ensures
        split_singletons(pattern@) == match r {
            Some((count, others)) => Some((count as nat, plans_view(others@))),
            None => None,
        },
{
    match pattern {
        GraphPattern::Union { inner } => {
            let ghost given = plans_view(inner@);
            let ghost keep = |branch: Plan| !is_empty_singleton(branch);
            let mut singleton_branch_count: usize = 0;
            let mut non_singleton_branches: Vec<GraphPattern> = Vec::new();
            assert(plans_view(non_singleton_branches@) =~= given.take(0).filter(keep)) by {
                reveal(Seq::filter);
            }
            for i in 0..inner.len()
                invariant
                    given == plans_view(inner@),
                    keep == (|branch: Plan| !is_empty_singleton(branch)),
                    plans_view(non_singleton_branches@) == given.take(i as int).filter(keep),
                    singleton_branch_count + non_singleton_branches@.len() == i,
            {
                let ghost before = non_singleton_branches@;
                proof {
                    reveal(Seq::filter);
                    assert(given[i as int] == inner@[i as int]@);
                    assert(given.take(i + 1).drop_last() =~= given.take(i as int));
                }
                if inner[i].is_empty_singleton() {
                    singleton_branch_count = singleton_branch_count + 1;
                } else {
                    non_singleton_branches.push(inner[i].clone());
                    assert(plans_view(non_singleton_branches@) =~= plans_view(before).push(
                        given[i as int],
                    ));
                }
            }
            assert(given.take(given.len() as int) =~= given);
            assert(plans_view(non_singleton_branches@).len() == non_singleton_branches@.len());
            if singleton_branch_count > 0 {
                Some((singleton_branch_count, non_singleton_branches))
            } else {
                None
            }
        },
        _ => None,
    }
}

/// Where an atom first occurs.
fn position_of_atom(factors: &Vec<GraphPattern>, atom: &GraphPattern) -> (r: Option<usize>)
    requires
        is_atom(atom@),
    ensures
        match r {
            Some(i) => plans_view(factors@).index_of_first(atom@) == Some(i as int) && i
                < factors@.len(),
            None => !plans_view(factors@).contains(atom@),
        },
{
    let ghost given = plans_view(factors@);
    for i in 0..factors.len()
        invariant
            given == plans_view(factors@),
            is_atom(atom@),
            forall|j: int| 0 <= j < i ==> #[trigger] given[j] != atom@,
    {
        assert(given[i as int] == factors@[i as int]@);
        if same_as_atom(&factors[i], atom) {
            proof {
                given.index_of_first_ensures(atom@);
                assert(given.contains(atom@));
                let first = given.index_of_first(atom@).unwrap();
                assert(given[first] == atom@);
                assert(first >= i);
            }
            return Some(i);
        }
    }
    None
}

/// Whether an atom is among some patterns.
pub fn contains_atom(factors: &Vec<GraphPattern>, atom: &GraphPattern) -> (r: bool)
    requires
        is_atom(atom@),
    ensures
        r == plans_view(factors@).contains(atom@),
{
    match position_of_atom(factors, atom) {
        Some(i) => {
            proof {
                plans_view(factors@).index_of_first_ensures(atom@);
            }
            true
        },
        None => false,
    }
}

pub open spec fn nested_view(branch_factors: Seq<Vec<GraphPattern>>) -> Seq<Seq<Plan>> {
    branch_factors.map_values(|factors: Vec<GraphPattern>| plans_view(factors@))
}

fn is_in_every(branch_factors: &Vec<Vec<GraphPattern>>, factor: &GraphPattern) -> (r: bool)
    requires
        is_atom(factor@),
    ensures
        r == in_every(nested_view(branch_factors@), factor@),
{
    let ghost all = nested_view(branch_factors@);
    for b in 0..branch_factors.len()
        invariant
            all == nested_view(branch_factors@),
            is_atom(factor@),
            forall|c: int| 0 <= c < b ==> (#[trigger] all[c]).contains(factor@),
    {
        assert(all[b as int] == plans_view(branch_factors@[b as int]@));
        if !contains_atom(&branch_factors[b], factor) {
            return false;
        }
    }
    true
}

fn find_common_factors(branch_factors: &Vec<Vec<GraphPattern>>) -> (r: Vec<GraphPattern>)
    requires
        branch_factors@.len() > 0,
    ensures
        plans_view(r@) == common_factors(
            nested_view(branch_factors@),
            branch_factors@[0]@.len() as int,
        ),
        forall|i: int| 0 <= i < r@.len() ==> is_atom((#[trigger] r@[i])@),
{
    let ghost all = nested_view(branch_factors@);
    let mut common: Vec<GraphPattern> = Vec::new();
    assert(plans_view(common@) =~= seq![]);
    let first = &branch_factors[0];
    for i in 0..first.len()
        invariant
            branch_factors@.len() > 0,
            *first == branch_factors@[0],
            all == nested_view(branch_factors@),
            plans_view(common@) == common_factors(all, i as int),
            forall|j: int| 0 <= j < common@.len() ==> is_atom((#[trigger] common@[j])@),
    {
        assert(all[0][i as int] == first@[i as int]@);
        let ghost before = common@;
        let factor = &first[i];
        if can_deduplicate_join_factor(factor) && !contains_atom(&common, factor) && is_in_every(
            branch_factors,
            factor,
        ) {
            common.push(factor.clone());
            assert(plans_view(common@) =~= plans_view(before).push(factor@));
        }
    }
    common
}

fn remove_common(factors: Vec<GraphPattern>, common: &Vec<GraphPattern>) -> (r: Vec<GraphPattern>)
    requires
        forall|i: int| 0 <= i < common@.len() ==> is_atom((#[trigger] common@[i])@),
    ensures
        plans_view(r@) == without_common(plans_view(factors@), plans_view(common@)),
{
    let ghost start = plans_view(factors@);
    let ghost shared = plans_view(common@);
    let mut factors = factors;
    for i in 0..common.len()
        invariant
            shared == plans_view(common@),
            forall|j: int| 0 <= j < common@.len() ==> is_atom((#[trigger] common@[j])@),
            plans_view(factors@) == without_common(start, shared.take(i as int)),
    {
        let ghost before = factors@;
        proof {
            assert(shared[i as int] == common@[i as int]@);
            assert(shared.take(i + 1).drop_last() =~= shared.take(i as int));
            plans_view(before).index_of_first_ensures(common@[i as int]@);
        }
        match position_of_atom(&factors, &common[i]) {
            Some(position) => {
                factors.remove(position);
                assert(plans_view(factors@) =~= plans_view(before).remove(position as int));
            },
            None => {},
        }
    }
    assert(shared.take(shared.len() as int) =~= shared);
    factors
}

/// The union of some branches, joined with the atoms that all of them share.
pub fn factor_common_join_factors_from_union(branches: Vec<GraphPattern>) -> (r: GraphPattern)
    ensures
        r@ == factor_common(plans_view(branches@)),
{
    if branches.len() < 2 {
        return GraphPattern::union_all(branches);
    }
    let ghost given = plans_view(branches@);
    let mut branch_factors: Vec<Vec<GraphPattern>> = Vec::new();
    for branch in it: branches
        invariant
            it.seq() == branches@,
            given == plans_view(branches@),
            nested_view(branch_factors@) == factors_of_branches(given.take(it.index() as int)),
    {
        let ghost n = it.index() as int;
        let ghost before = branch_factors@;
        let mut factors: Vec<GraphPattern> = Vec::new();
        assert(plans_view(factors@) =~= seq![]);
        let ghost plan = branch@;
        flatten_inner_join_factors(branch, &mut factors);
        branch_factors.push(factors);
        proof {
            assert(given[n] == plan);
            assert(plans_view(factors@) =~= join_factors(plan));
            assert(nested_view(branch_factors@) =~= nested_view(before).push(join_factors(plan)));
            assert(factors_of_branches(given.take(n + 1)) =~= factors_of_branches(
                given.take(n),
            ).push(join_factors(plan)));
        }
    }
    assert(given.take(given.len() as int) =~= given);
    let ghost all = nested_view(branch_factors@);
    assert(all == factors_of_branches(given));
    assert(all.len() == branch_factors@.len());
    assert(all[0] == plans_view(branch_factors@[0]@));
    let common = find_common_factors(&branch_factors);
    let ghost shared = plans_view(common@);
    let mut reduced: Vec<GraphPattern> = Vec::new();
    assert(plans_view(reduced@) =~= reduced_branches(all.take(0), shared));
    for factors in it: branch_factors
        invariant
            it.seq() == branch_factors@,
            all == nested_view(branch_factors@),
            shared == plans_view(common@),
            forall|j: int| 0 <= j < common@.len() ==> is_atom((#[trigger] common@[j])@),
            plans_view(reduced@) == reduced_branches(all.take(it.index() as int), shared),
    {
        let ghost n = it.index() as int;
        let ghost before = reduced@;
        let ghost old_factors = plans_view(factors@);
        assert(all[n] == old_factors);
        let remaining = join_all_or_singleton(remove_common(factors, &common));
        let ghost plan = remaining@;
        reduced.push(remaining);
        proof {
            assert(plans_view(reduced@) =~= plans_view(before).push(plan));
            assert(reduced_branches(all.take(n + 1), shared) =~= reduced_branches(
                all.take(n),
                shared,
            ).push(plan));
        }
    }
    assert(all.take(all.len() as int) =~= all);
    let mut result = GraphPattern::union_all(reduced);
    let ghost start = result@;
    for factor in it: common
        invariant
            it.seq() == common@,
            shared == plans_view(common@),
            result@ == joined_onto(start, shared.take(it.index() as int)),
    {
        let ghost n = it.index() as int;
        proof {
            assert(shared[n] == factor@);
            assert(shared.take(n + 1).drop_last() =~= shared.take(n));
        }
        result = GraphPattern::join(result, factor, keyless());
    }
    assert(shared.take(shared.len() as int) =~= shared);
    result
}

} // verus!
