//! Solutions: which variables have which values, and how solutions are joined.

use vstd::prelude::*;

use crate::bags::{
    gather, lemma_gather_both, lemma_gather_concat, lemma_gather_contains, lemma_gather_equal,
    lemma_gather_exchange, lemma_gather_order, lemma_gather_replace, lemma_gather_single,
    lemma_gather_twice, same,
};
use crate::term::{GroundTermView, LiteralView};

verus! {

/// A value.
pub ghost enum Term {
    NamedNode(Seq<char>),
    BlankNode(Seq<char>),
    Literal(LiteralView),
    Triple(Box<Term>, Seq<char>, Box<Term>),
}

/// The value that a constant stands for.
pub open spec fn constant(term: GroundTermView) -> Term
    decreases term,
{
    match term {
        GroundTermView::NamedNode(iri) => Term::NamedNode(iri),
        GroundTermView::Literal(literal) => Term::Literal(literal),
        GroundTermView::Triple { subject, predicate, object } => Term::Triple(
            Box::new(Term::NamedNode(subject)),
            predicate,
            Box::new(constant(*object)),
        ),
    }
}

/// The values of some variables.
pub type Solution = Map<Seq<char>, Term>;

/// The value of a variable, if it has one.
pub open spec fn lookup(solution: Solution, variable: Seq<char>) -> Option<Term> {
    if solution.dom().contains(variable) {
        Some(solution[variable])
    } else {
        None
    }
}

/// Whether two solutions agree on the variables that both bind.
pub open spec fn compatible(left: Solution, right: Solution) -> bool {
    forall|v: Seq<char>| #[trigger]
        left.dom().contains(v) && #[trigger] right.dom().contains(v) ==> left[v] == right[v]
}

/// What either of two solutions binds.
pub open spec fn merge(left: Solution, right: Solution) -> Solution {
    left.union_prefer_right(right)
}

/// Whether a solution binds all that another one binds, to the same values.
pub open spec fn extends(solution: Solution, base: Solution) -> bool {
    forall|v: Seq<char>| #[trigger]
        base.dom().contains(v) ==> solution.dom().contains(v) && solution[v] == base[v]
}

/// Whether two solutions are the same on some variables.
pub open spec fn agree(left: Solution, right: Solution, variables: Set<Seq<char>>) -> bool {
    forall|v: Seq<char>| #[trigger]
        variables.contains(v) ==> lookup(left, v) == lookup(right, v)
}

/// A solution without some variables.
pub open spec fn hide_variables(solution: Solution, hidden: Set<Seq<char>>) -> Solution {
    solution.remove_keys(hidden)
}

/// The join of two solutions, if they are compatible.
pub open spec fn merged(left: Solution, right: Solution) -> Seq<Solution> {
    if compatible(left, right) {
        seq![merge(left, right)]
    } else {
        seq![]
    }
}

/// The joins of one solution with some others.
pub open spec fn joined_with(solution: Solution, others: Seq<Solution>) -> Seq<Solution> {
    gather(others, |other: Solution| merged(solution, other))
}

/// The joins of some solutions with some others.
pub open spec fn joined_bags(left: Seq<Solution>, right: Seq<Solution>) -> Seq<Solution> {
    gather(left, |solution: Solution| joined_with(solution, right))
}

/// Every solution extends a base.
pub open spec fn all_extend(solutions: Seq<Solution>, base: Solution) -> bool {
    forall|i: int| 0 <= i < solutions.len() ==> extends(#[trigger] solutions[i], base)
}

pub proof fn lemma_compatible_sym(left: Solution, right: Solution)
    ensures
        compatible(left, right) == compatible(right, left),
        compatible(left, right) ==> merge(left, right) == merge(right, left),
        merged(left, right) == merged(right, left),
{
    if compatible(left, right) {
        assert(merge(left, right) =~= merge(right, left));
    }
    if compatible(left, right) || compatible(right, left) {
        assert forall|v: Seq<char>|
            left.dom().contains(v) && right.dom().contains(v) implies left[v] == right[v] by {}
        assert(compatible(left, right) && compatible(right, left));
    }
}

pub proof fn lemma_merge_extends(left: Solution, right: Solution)
    requires
        compatible(left, right),
    ensures
        extends(merge(left, right), left),
        extends(merge(left, right), right),
        merge(left, right).dom() == left.dom().union(right.dom()),
{
    assert(merge(left, right).dom() =~= left.dom().union(right.dom()));
}

pub proof fn lemma_extends_merge(solution: Solution, base: Solution)
    requires
        extends(solution, base),
    ensures
        compatible(base, solution),
        compatible(solution, base),
        merge(base, solution) == solution,
        merge(solution, base) == solution,
        merged(base, solution) == seq![solution],
{
    assert(merge(base, solution) =~= solution);
    assert(merge(solution, base) =~= solution);
}

pub proof fn lemma_extends_trans(a: Solution, b: Solution, c: Solution)
    requires
        extends(a, b),
        extends(b, c),
    ensures
        extends(a, c),
{
}

/// Joining three solutions, in either way.
pub proof fn lemma_merge_assoc(a: Solution, b: Solution, c: Solution)
    ensures
        compatible(a, b) && compatible(merge(a, b), c) <==> compatible(b, c) && compatible(
            a,
            merge(b, c),
        ),
        compatible(a, b) && compatible(merge(a, b), c) ==> merge(merge(a, b), c) == merge(
            a,
            merge(b, c),
        ) && compatible(a, c),
{
    assert(merge(merge(a, b), c) =~= merge(a, merge(b, c)));
    if compatible(a, b) && compatible(merge(a, b), c) {
        assert forall|v: Seq<char>|
            a.dom().contains(v) && #[trigger] c.dom().contains(v) implies a[v] == c[v] by {
            assert(merge(a, b).dom().contains(v));
        }
        assert forall|v: Seq<char>|
            b.dom().contains(v) && #[trigger] c.dom().contains(v) implies b[v] == c[v] by {
            assert(merge(a, b).dom().contains(v));
        }
        assert forall|v: Seq<char>|
            a.dom().contains(v) && #[trigger] merge(b, c).dom().contains(v) implies a[v] == merge(
            b,
            c,
        )[v] by {}
    }
    if compatible(b, c) && compatible(a, merge(b, c)) {
        assert forall|v: Seq<char>|
            a.dom().contains(v) && #[trigger] c.dom().contains(v) implies a[v] == c[v] by {
            assert(merge(b, c).dom().contains(v));
        }
        assert forall|v: Seq<char>|
            a.dom().contains(v) && #[trigger] b.dom().contains(v) implies a[v] == b[v] by {
            assert(merge(b, c).dom().contains(v));
        }
        assert forall|v: Seq<char>|
            merge(a, b).dom().contains(v) && #[trigger] c.dom().contains(v) implies merge(
            a,
            b,
        )[v] == c[v] by {}
    }
}

/// A joined solution comes from one of the others.
pub proof fn lemma_joined_with_contains(solution: Solution, others: Seq<Solution>, x: Solution)
    ensures
        joined_with(solution, others).contains(x) <==> exists|i: int|
            0 <= i < others.len() && compatible(solution, #[trigger] others[i]) && x == merge(
                solution,
                others[i],
            ),
{
    let f = |other: Solution| merged(solution, other);
    lemma_gather_contains(others, f, x);
    if joined_with(solution, others).contains(x) {
        let i = choose|i: int| 0 <= i < others.len() && f(#[trigger] others[i]).contains(x);
        assert(merged(solution, others[i]).contains(x));
    }
    if exists|i: int|
        0 <= i < others.len() && compatible(solution, #[trigger] others[i]) && x == merge(
            solution,
            others[i],
        ) {
        let i = choose|i: int|
            0 <= i < others.len() && compatible(solution, #[trigger] others[i]) && x == merge(
                solution,
                others[i],
            );
        assert(f(others[i])[0] == x);
        assert(f(others[i]).contains(x));
    }
}

/// Joining a base with solutions that extend it changes nothing.
pub proof fn lemma_joined_with_base(base: Solution, solutions: Seq<Solution>)
    requires
        all_extend(solutions, base),
    ensures
        joined_with(base, solutions) == solutions,
    decreases solutions.len(),
{
    if solutions.len() > 0 {
        let shorter = solutions.drop_last();
        assert forall|i: int| 0 <= i < shorter.len() implies extends(#[trigger] shorter[i], base) by {
            assert(extends(solutions[i], base));
        }
        lemma_joined_with_base(base, shorter);
        assert(extends(solutions[solutions.len() - 1], base));
        lemma_extends_merge(solutions.last(), base);
        assert(joined_with(base, solutions) =~= solutions);
    }
}

/// A join of one solution with the joins of another with some.
pub proof fn lemma_joined_with_twice(a: Solution, b: Solution, others: Seq<Solution>)
    ensures
        gather(merged(a, b), |x: Solution| joined_with(x, others)) == joined_with(
            a,
            joined_with(b, others),
        ),
{
    let left = |c: Solution| merged(merge(a, b), c);
    let right = |c: Solution| gather(merged(b, c), |y: Solution| merged(a, y));
    let to_a = |y: Solution| merged(a, y);
    let to_b = |c: Solution| merged(b, c);
    lemma_gather_twice(others, to_b, to_a);
    lemma_gather_equal(others, |c: Solution| gather(to_b(c), to_a), right);
    assert(joined_with(a, joined_with(b, others)) == gather(others, right));
    if compatible(a, b) {
        lemma_gather_single(merge(a, b), |x: Solution| joined_with(x, others));
        assert forall|i: int| 0 <= i < others.len() implies left(#[trigger] others[i]) == right(
            others[i],
        ) by {
            let c = others[i];
            lemma_merge_assoc(a, b, c);
            if compatible(b, c) {
                lemma_gather_single(merge(b, c), to_a);
                lemma_gather_equal(
                    merged(b, c),
                    to_a,
                    |y: Solution| merged(a, y),
                );
                assert(right(c) == merged(a, merge(b, c)));
                assert(left(c) =~= right(c));
            } else {
                assert(left(c) =~= right(c));
            }
        }
        lemma_gather_equal(others, left, right);
    } else {
        assert forall|i: int| 0 <= i < others.len() implies right(#[trigger] others[i]) == (|c:
            Solution| Seq::<Solution>::empty())(others[i]) by {
            let c = others[i];
            lemma_merge_assoc(a, b, c);
            if compatible(b, c) {
                lemma_gather_single(merge(b, c), |y: Solution| merged(a, y));
                assert(!compatible(a, merge(b, c)));
            }
        }
        lemma_gather_equal(others, right, |c: Solution| Seq::<Solution>::empty());
        crate::bags::lemma_gather_nothing::<Solution, Solution>(others);
    }
}

/// Joins are associative.
pub proof fn lemma_join_assoc(a: Seq<Solution>, b: Seq<Solution>, c: Seq<Solution>)
    ensures
        joined_bags(joined_bags(a, b), c) == joined_bags(a, joined_bags(b, c)),
{
    let with_b = |x: Solution| joined_with(x, b);
    let with_c = |x: Solution| joined_with(x, c);
    let with_bc = |x: Solution| joined_with(x, joined_bags(b, c));
    lemma_gather_twice(a, with_b, with_c);
    assert forall|i: int| 0 <= i < a.len() implies (|x: Solution| gather(with_b(x), with_c))(
        #[trigger] a[i],
    ) == with_bc(a[i]) by {
        let x = a[i];
        let to_x = |y: Solution| merged(x, y);
        lemma_gather_twice(b, to_x, with_c);
        lemma_gather_twice(b, with_c, to_x);
        assert forall|j: int| 0 <= j < b.len() implies (|y: Solution| gather(to_x(y), with_c))(
            #[trigger] b[j],
        ) == (|y: Solution| gather(with_c(y), to_x))(b[j]) by {
            lemma_joined_with_twice(x, b[j], c);
            lemma_gather_equal(
                merged(x, b[j]),
                |z: Solution| joined_with(z, c),
                with_c,
            );
        }
        lemma_gather_equal(
            b,
            |y: Solution| gather(to_x(y), with_c),
            |y: Solution| gather(with_c(y), to_x),
        );
    }
    lemma_gather_equal(a, |x: Solution| gather(with_b(x), with_c), with_bc);
}

/// Joins are commutative.
pub proof fn lemma_join_commutes(a: Seq<Solution>, b: Seq<Solution>)
    ensures
        same(joined_bags(a, b), joined_bags(b, a)),
{
    let h = |x: Solution, y: Solution| merged(x, y);
    lemma_gather_exchange(a, b, h);
    let from_a = |x: Solution| gather(b, |y: Solution| h(x, y));
    let from_b = |y: Solution| gather(a, |x: Solution| h(x, y));
    assert forall|i: int| 0 <= i < a.len() implies from_a(#[trigger] a[i]) == joined_with(
        a[i],
        b,
    ) by {
        lemma_gather_equal(b, |y: Solution| h(a[i], y), |y: Solution| merged(a[i], y));
    }
    lemma_gather_equal(a, from_a, |x: Solution| joined_with(x, b));
    assert forall|j: int| 0 <= j < b.len() implies from_b(#[trigger] b[j]) == joined_with(
        b[j],
        a,
    ) by {
        assert forall|i: int| 0 <= i < a.len() implies (|x: Solution| h(x, b[j]))(#[trigger] a[i])
            == merged(b[j], a[i]) by {
            lemma_compatible_sym(a[i], b[j]);
        }
        lemma_gather_equal(a, |x: Solution| h(x, b[j]), |x: Solution| merged(b[j], x));
    }
    lemma_gather_equal(b, from_b, |y: Solution| joined_with(y, a));
}

/// Joins of the same bags are the same.
pub proof fn lemma_join_same(
    a: Seq<Solution>,
    b: Seq<Solution>,
    c: Seq<Solution>,
    d: Seq<Solution>,
)
    requires
        same(a, c),
        same(b, d),
    ensures
        same(joined_bags(a, b), joined_bags(c, d)),
{
    let f = |x: Solution| joined_with(x, b);
    let g = |x: Solution| joined_with(x, d);
    assert forall|i: int| 0 <= i < c.len() implies same(f(#[trigger] c[i]), g(c[i])) by {
        lemma_gather_order(b, d, |y: Solution| merged(c[i], y));
    }
    lemma_gather_replace(a, c, f, g);
}

/// Joining with one of two bags.
pub proof fn lemma_join_splits(a: Seq<Solution>, b: Seq<Solution>, c: Seq<Solution>)
    ensures
        joined_bags(a + b, c) == joined_bags(a, c) + joined_bags(b, c),
        same(joined_bags(a, b + c), joined_bags(a, b) + joined_bags(a, c)),
{
    lemma_gather_concat(a, b, |x: Solution| joined_with(x, c));
    let f = |x: Solution| joined_with(x, b);
    let g = |x: Solution| joined_with(x, c);
    lemma_gather_both(a, f, g);
    assert forall|i: int| 0 <= i < a.len() implies (|x: Solution| joined_with(x, b + c))(
        #[trigger] a[i],
    ) == (|x: Solution| f(x) + g(x))(a[i]) by {
        lemma_gather_concat(b, c, |y: Solution| merged(a[i], y));
    }
    lemma_gather_equal(a, |x: Solution| joined_with(x, b + c), |x: Solution| f(x) + g(x));
}

/// Joining with a base that the solutions extend.
pub proof fn lemma_join_unit(base: Solution, solutions: Seq<Solution>)
    requires
        all_extend(solutions, base),
    ensures
        joined_bags(seq![base], solutions) == solutions,
        same(joined_bags(solutions, seq![base]), solutions),
{
    lemma_gather_single(base, |x: Solution| joined_with(x, solutions));
    lemma_joined_with_base(base, solutions);
    lemma_join_commutes(solutions, seq![base]);
}

/// Joining with nothing.
pub proof fn lemma_join_nothing(solutions: Seq<Solution>)
    ensures
        joined_bags(Seq::<Solution>::empty(), solutions) == Seq::<Solution>::empty(),
        joined_bags(solutions, Seq::<Solution>::empty()) == Seq::<Solution>::empty(),
{
    let none = Seq::<Solution>::empty();
    assert forall|i: int| 0 <= i < solutions.len() implies (|x: Solution| joined_with(x, none))(
        #[trigger] solutions[i],
    ) == (|x: Solution| Seq::<Solution>::empty())(solutions[i]) by {}
    lemma_gather_equal(
        solutions,
        |x: Solution| joined_with(x, none),
        |x: Solution| Seq::<Solution>::empty(),
    );
    crate::bags::lemma_gather_nothing::<Solution, Solution>(solutions);
}

/// Joins extend what both sides extend.
pub proof fn lemma_join_extends(base: Solution, left: Seq<Solution>, right: Seq<Solution>)
    requires
        all_extend(left, base),
    ensures
        all_extend(joined_bags(left, right), base),
{
    let all = joined_bags(left, right);
    let f = |x: Solution| joined_with(x, right);
    assert forall|i: int| 0 <= i < all.len() implies extends(#[trigger] all[i], base) by {
        lemma_gather_contains(left, f, all[i]);
        assert(all.contains(all[i]));
        let j = choose|j: int| 0 <= j < left.len() && f(#[trigger] left[j]).contains(all[i]);
        lemma_joined_with_contains(left[j], right, all[i]);
        let k = choose|k: int|
            0 <= k < right.len() && compatible(left[j], #[trigger] right[k]) && all[i] == merge(
                left[j],
                right[k],
            );
        lemma_merge_extends(left[j], right[k]);
        assert(extends(left[j], base));
    }
}

/// A joined solution comes from a compatible pair.
pub proof fn lemma_joined_bags_contains(
    left: Seq<Solution>,
    right: Seq<Solution>,
    x: Solution,
) -> (pair: (int, int))
    requires
        joined_bags(left, right).contains(x),
    ensures
        0 <= pair.0 < left.len(),
        0 <= pair.1 < right.len(),
        compatible(left[pair.0], right[pair.1]),
        x == merge(left[pair.0], right[pair.1]),
{
    let f = |y: Solution| joined_with(y, right);
    lemma_gather_contains(left, f, x);
    let i = choose|i: int| 0 <= i < left.len() && f(#[trigger] left[i]).contains(x);
    lemma_joined_with_contains(left[i], right, x);
    let k = choose|k: int|
        0 <= k < right.len() && compatible(left[i], #[trigger] right[k]) && x == merge(
            left[i],
            right[k],
        );
    (i, k)
}

} // verus!
