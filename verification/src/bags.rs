//! Bags, held as sequences whose order does not matter.

use vstd::prelude::*;
use vstd::seq_lib::lemma_multiset_commutative;

verus! {

/// Whether two sequences hold the same items, each of them equally often.
pub open spec fn same<A>(left: Seq<A>, right: Seq<A>) -> bool {
    left.to_multiset() == right.to_multiset()
}

/// What a function gives for the items, all together.
pub open spec fn gather<A, B>(items: Seq<A>, f: spec_fn(A) -> Seq<B>) -> Seq<B>
    decreases items.len(),
{
    if items.len() == 0 {
        seq![]
    } else {
        gather(items.drop_last(), f) + f(items.last())
    }
}

/// The items for which a condition holds.
pub open spec fn keep<A>(items: Seq<A>, condition: spec_fn(A) -> bool) -> Seq<A> {
    gather(
        items,
        |item: A|
            if condition(item) {
                seq![item]
            } else {
                seq![]
            },
    )
}

/// The items, each of them once.
pub open spec fn once<A>(items: Seq<A>) -> Seq<A>
    decreases items.len(),
{
    if items.len() == 0 {
        seq![]
    } else if items.drop_last().contains(items.last()) {
        once(items.drop_last())
    } else {
        once(items.drop_last()).push(items.last())
    }
}

pub proof fn lemma_same_concat<A>(a: Seq<A>, b: Seq<A>, c: Seq<A>, d: Seq<A>)
    requires
        same(a, c),
        same(b, d),
    ensures
        same(a + b, c + d),
{
    lemma_multiset_commutative(a, b);
    lemma_multiset_commutative(c, d);
}

pub proof fn lemma_same_swap<A>(a: Seq<A>, b: Seq<A>)
    ensures
        same(a + b, b + a),
{
    lemma_multiset_commutative(a, b);
    lemma_multiset_commutative(b, a);
    assert((a + b).to_multiset() =~= (b + a).to_multiset());
}

/// The same bag has as many items, and the same ones.
pub proof fn lemma_same_items<A>(a: Seq<A>, b: Seq<A>)
    requires
        same(a, b),
    ensures
        a.len() == b.len(),
        forall|x: A| #[trigger] a.contains(x) <==> b.contains(x),
{
    a.to_multiset_ensures();
    b.to_multiset_ensures();
    assert forall|x: A| #[trigger] a.contains(x) <==> b.contains(x) by {
        assert(a.to_multiset().count(x) == b.to_multiset().count(x));
    }
}

pub proof fn lemma_gather_push<A, B>(items: Seq<A>, last: A, f: spec_fn(A) -> Seq<B>)
    ensures
        gather(items.push(last), f) == gather(items, f) + f(last),
{
    assert(items.push(last).drop_last() =~= items);
}

pub proof fn lemma_gather_single<A, B>(item: A, f: spec_fn(A) -> Seq<B>)
    ensures
        gather(seq![item], f) == f(item),
{
    let none = Seq::<A>::empty();
    lemma_gather_push(none, item, f);
    assert(none.push(item) =~= seq![item]);
    assert(gather(none, f) + f(item) =~= f(item));
}

pub proof fn lemma_gather_concat<A, B>(a: Seq<A>, b: Seq<A>, f: spec_fn(A) -> Seq<B>)
    ensures
        gather(a + b, f) == gather(a, f) + gather(b, f),
    decreases b.len(),
{
    if b.len() == 0 {
        assert(a + b =~= a);
        assert(gather(a, f) + gather(b, f) =~= gather(a, f));
    } else {
        lemma_gather_concat(a, b.drop_last(), f);
        assert((a + b).drop_last() =~= a + b.drop_last());
        assert(gather(a, f) + gather(b.drop_last(), f) + f(b.last()) =~= gather(a, f) + (gather(
            b.drop_last(),
            f,
        ) + f(b.last())));
    }
}

/// What a function gives is given for one of the items.
pub proof fn lemma_gather_contains<A, B>(items: Seq<A>, f: spec_fn(A) -> Seq<B>, x: B)
    ensures
        gather(items, f).contains(x) <==> exists|i: int|
            0 <= i < items.len() && f(#[trigger] items[i]).contains(x),
    decreases items.len(),
{
    if items.len() > 0 {
        let shorter = items.drop_last();
        let last = f(items.last());
        lemma_gather_contains(shorter, f, x);
        let all = gather(shorter, f) + last;
        if all.contains(x) {
            let k = choose|k: int| 0 <= k < all.len() && all[k] == x;
            if k < gather(shorter, f).len() {
                assert(gather(shorter, f)[k] == x);
                let i = choose|i: int| 0 <= i < shorter.len() && f(#[trigger] shorter[i]).contains(x);
                assert(f(items[i]).contains(x));
            } else {
                assert(last[k - gather(shorter, f).len()] == x);
                assert(f(items[items.len() - 1]).contains(x));
            }
        }
        if exists|i: int| 0 <= i < items.len() && f(#[trigger] items[i]).contains(x) {
            let i = choose|i: int| 0 <= i < items.len() && f(#[trigger] items[i]).contains(x);
            if i < shorter.len() {
                assert(f(shorter[i]).contains(x));
                let k = choose|k: int|
                    0 <= k < gather(shorter, f).len() && gather(shorter, f)[k] == x;
                assert(all[k] == x);
            } else {
                let k = choose|k: int| 0 <= k < last.len() && last[k] == x;
                assert(all[gather(shorter, f).len() + k] == x);
            }
        }
    }
}

/// Functions that give equal results on the items gather the same.
pub proof fn lemma_gather_equal<A, B>(
    items: Seq<A>,
    f: spec_fn(A) -> Seq<B>,
    g: spec_fn(A) -> Seq<B>,
)
    requires
        forall|i: int| 0 <= i < items.len() ==> f(#[trigger] items[i]) == g(items[i]),
    ensures
        gather(items, f) == gather(items, g),
    decreases items.len(),
{
    if items.len() > 0 {
        let shorter = items.drop_last();
        assert forall|i: int| 0 <= i < shorter.len() implies f(#[trigger] shorter[i]) == g(
            shorter[i],
        ) by {
            assert(f(items[i]) == g(items[i]));
        }
        lemma_gather_equal(shorter, f, g);
        assert(f(items[items.len() - 1]) == g(items[items.len() - 1]));
    }
}

/// Functions that give the same bags on the items gather the same bag.
pub proof fn lemma_gather_same<A, B>(
    items: Seq<A>,
    f: spec_fn(A) -> Seq<B>,
    g: spec_fn(A) -> Seq<B>,
)
    requires
        forall|i: int| 0 <= i < items.len() ==> same(f(#[trigger] items[i]), g(items[i])),
    ensures
        same(gather(items, f), gather(items, g)),
    decreases items.len(),
{
    if items.len() > 0 {
        let shorter = items.drop_last();
        assert forall|i: int| 0 <= i < shorter.len() implies same(
            f(#[trigger] shorter[i]),
            g(shorter[i]),
        ) by {
            assert(same(f(items[i]), g(items[i])));
        }
        lemma_gather_same(shorter, f, g);
        assert(same(f(items[items.len() - 1]), g(items[items.len() - 1])));
        lemma_same_concat(gather(shorter, f), f(items.last()), gather(shorter, g), g(items.last()));
    }
}

/// The order of the items does not matter.
pub proof fn lemma_gather_order<A, B>(a: Seq<A>, b: Seq<A>, f: spec_fn(A) -> Seq<B>)
    requires
        same(a, b),
    ensures
        same(gather(a, f), gather(b, f)),
    decreases a.len(),
{
    lemma_same_items(a, b);
    if a.len() > 0 {
        let last = a.last();
        assert(a[a.len() - 1] == last);
        assert(a.contains(last));
        let k = choose|k: int| 0 <= k < b.len() && b[k] == last;
        let (before, after) = (b.take(k), b.skip(k + 1));
        assert(b =~= before + seq![last] + after);
        assert(b.remove(k) =~= before + after);
        assert(a.remove(a.len() - 1) =~= a.drop_last());
        a.to_multiset_ensures();
        b.to_multiset_ensures();
        assert(same(a.drop_last(), before + after));
        lemma_gather_order(a.drop_last(), before + after, f);
        lemma_gather_concat(before, after, f);
        lemma_gather_concat(before + seq![last], after, f);
        lemma_gather_concat(before, seq![last], f);
        lemma_gather_single(last, f);
        let (x, y, z) = (gather(before, f), f(last), gather(after, f));
        lemma_multiset_commutative(x, z);
        lemma_multiset_commutative(x + z, y);
        lemma_multiset_commutative(x, y);
        lemma_multiset_commutative(x + y, z);
        assert(((x + z) + y).to_multiset() =~= ((x + y) + z).to_multiset());
        lemma_same_concat(gather(a.drop_last(), f), y, x + z, y);
    }
}

/// Both changes together: other bags, in another order.
pub proof fn lemma_gather_replace<A, B>(
    a: Seq<A>,
    b: Seq<A>,
    f: spec_fn(A) -> Seq<B>,
    g: spec_fn(A) -> Seq<B>,
)
    requires
        same(a, b),
        forall|i: int| 0 <= i < b.len() ==> same(f(#[trigger] b[i]), g(b[i])),
    ensures
        same(gather(a, f), gather(b, g)),
{
    lemma_gather_order(a, b, f);
    lemma_gather_same(b, f, g);
}

/// Gathering twice.
pub proof fn lemma_gather_twice<A, B, C>(
    items: Seq<A>,
    f: spec_fn(A) -> Seq<B>,
    g: spec_fn(B) -> Seq<C>,
)
    ensures
        gather(gather(items, f), g) == gather(items, |item: A| gather(f(item), g)),
    decreases items.len(),
{
    if items.len() > 0 {
        lemma_gather_twice(items.drop_last(), f, g);
        lemma_gather_concat(gather(items.drop_last(), f), f(items.last()), g);
    }
}

/// Gathering two results of each item.
pub proof fn lemma_gather_both<A, B>(
    items: Seq<A>,
    f: spec_fn(A) -> Seq<B>,
    g: spec_fn(A) -> Seq<B>,
)
    ensures
        same(gather(items, |item: A| f(item) + g(item)), gather(items, f) + gather(items, g)),
    decreases items.len(),
{
    let both = |item: A| f(item) + g(item);
    if items.len() > 0 {
        let shorter = items.drop_last();
        lemma_gather_both(shorter, f, g);
        let (a, b) = (gather(shorter, f), gather(shorter, g));
        let (x, y) = (f(items.last()), g(items.last()));
        lemma_same_concat(gather(shorter, both), x + y, a + b, x + y);
        lemma_multiset_commutative(a + b, x + y);
        lemma_multiset_commutative(a, b);
        lemma_multiset_commutative(x, y);
        lemma_multiset_commutative(a + x, b + y);
        lemma_multiset_commutative(a, x);
        lemma_multiset_commutative(b, y);
        assert(((a + b) + (x + y)).to_multiset() =~= ((a + x) + (b + y)).to_multiset());
    } else {
        assert(gather(items, f) + gather(items, g) =~= gather(items, both));
    }
}

/// Gathering over two lists, in either order.
pub proof fn lemma_gather_exchange<A, B, C>(
    left: Seq<A>,
    right: Seq<B>,
    h: spec_fn(A, B) -> Seq<C>,
)
    ensures
        same(
            gather(left, |a: A| gather(right, |b: B| h(a, b))),
            gather(right, |b: B| gather(left, |a: A| h(a, b))),
        ),
    decreases left.len(),
{
    let by_left = |a: A| gather(right, |b: B| h(a, b));
    let by_right = |b: B| gather(left, |a: A| h(a, b));
    if left.len() == 0 {
        let none = |b: B| Seq::<C>::empty();
        lemma_gather_equal(right, by_right, none);
        lemma_gather_nothing::<B, C>(right);
        assert(gather(left, by_left) =~= gather(right, by_right));
    } else {
        let shorter = left.drop_last();
        let last = left.last();
        lemma_gather_exchange(shorter, right, h);
        let before = |b: B| gather(shorter, |a: A| h(a, b));
        let now = |b: B| h(last, b);
        lemma_gather_both(right, before, now);
        lemma_gather_equal(right, by_right, |b: B| before(b) + now(b));
        lemma_same_concat(
            gather(shorter, by_left),
            by_left(last),
            gather(right, before),
            gather(right, now),
        );
        assert(by_left(last) == gather(right, now));
    }
}

pub proof fn lemma_gather_nothing<A, B>(items: Seq<A>)
    ensures
        gather(items, |item: A| Seq::<B>::empty()) == Seq::<B>::empty(),
    decreases items.len(),
{
    if items.len() > 0 {
        lemma_gather_nothing::<A, B>(items.drop_last());
    }
}

/// The items that are kept are items for which the condition holds.
pub proof fn lemma_keep_contains<A>(items: Seq<A>, condition: spec_fn(A) -> bool, x: A)
    ensures
        keep(items, condition).contains(x) <==> items.contains(x) && condition(x),
{
    let f = |item: A|
        if condition(item) {
            seq![item]
        } else {
            seq![]
        };
    lemma_gather_contains(items, f, x);
    if items.contains(x) && condition(x) {
        let i = choose|i: int| 0 <= i < items.len() && items[i] == x;
        assert(f(items[i])[0] == x);
        assert(f(items[i]).contains(x));
    }
}

/// Conditions that agree on the items keep the same.
pub proof fn lemma_keep_equal<A>(
    items: Seq<A>,
    first: spec_fn(A) -> bool,
    second: spec_fn(A) -> bool,
)
    requires
        forall|i: int| 0 <= i < items.len() ==> first(#[trigger] items[i]) == second(items[i]),
    ensures
        keep(items, first) == keep(items, second),
{
    lemma_gather_equal(
        items,
        |item: A|
            if first(item) {
                seq![item]
            } else {
                seq![]
            },
        |item: A|
            if second(item) {
                seq![item]
            } else {
                seq![]
            },
    );
}

pub proof fn lemma_keep_order<A>(a: Seq<A>, b: Seq<A>, condition: spec_fn(A) -> bool)
    requires
        same(a, b),
    ensures
        same(keep(a, condition), keep(b, condition)),
{
    lemma_gather_order(
        a,
        b,
        |item: A|
            if condition(item) {
                seq![item]
            } else {
                seq![]
            },
    );
}

/// Keeping what is gathered is gathering what is kept.
pub proof fn lemma_keep_gather<A, B>(
    items: Seq<A>,
    f: spec_fn(A) -> Seq<B>,
    condition: spec_fn(B) -> bool,
)
    ensures
        keep(gather(items, f), condition) == gather(items, |item: A| keep(f(item), condition)),
{
    let pick = |item: B|
        if condition(item) {
            seq![item]
        } else {
            seq![]
        };
    lemma_gather_twice(items, f, pick);
    lemma_gather_equal(
        items,
        |item: A| gather(f(item), pick),
        |item: A| keep(f(item), condition),
    );
}

/// Keeping by one condition and then by another.
pub proof fn lemma_keep_twice<A>(
    items: Seq<A>,
    first: spec_fn(A) -> bool,
    second: spec_fn(A) -> bool,
)
    ensures
        keep(keep(items, first), second) == keep(items, |item: A| first(item) && second(item)),
    decreases items.len(),
{
    let f = |item: A|
        if first(item) {
            seq![item]
        } else {
            seq![]
        };
    let g = |item: A|
        if second(item) {
            seq![item]
        } else {
            seq![]
        };
    let both = |item: A|
        if first(item) && second(item) {
            seq![item]
        } else {
            seq![]
        };
    lemma_gather_twice(items, f, g);
    assert forall|i: int| 0 <= i < items.len() implies (|item: A| gather(f(item), g))(
        #[trigger] items[i],
    ) == both(items[i]) by {
        if first(items[i]) {
            lemma_gather_single(items[i], g);
        }
    }
    lemma_gather_equal(items, |item: A| gather(f(item), g), both);
    lemma_gather_equal(
        items,
        both,
        |item: A|
            if (|x: A| first(x) && second(x))(item) {
                seq![item]
            } else {
                seq![]
            },
    );
}

/// Keeping everything.
pub proof fn lemma_keep_all<A>(items: Seq<A>, condition: spec_fn(A) -> bool)
    requires
        forall|i: int| 0 <= i < items.len() ==> condition(#[trigger] items[i]),
    ensures
        keep(items, condition) == items,
    decreases items.len(),
{
    if items.len() > 0 {
        let shorter = items.drop_last();
        assert forall|i: int| 0 <= i < shorter.len() implies condition(#[trigger] shorter[i]) by {
            assert(condition(items[i]));
        }
        lemma_keep_all(shorter, condition);
        assert(condition(items[items.len() - 1]));
        assert(keep(items, condition) =~= items);
    }
}

/// Keeping nothing.
pub proof fn lemma_keep_none<A>(items: Seq<A>, condition: spec_fn(A) -> bool)
    requires
        forall|i: int| 0 <= i < items.len() ==> !condition(#[trigger] items[i]),
    ensures
        keep(items, condition) == Seq::<A>::empty(),
    decreases items.len(),
{
    if items.len() > 0 {
        let shorter = items.drop_last();
        assert forall|i: int| 0 <= i < shorter.len() implies !condition(#[trigger] shorter[i]) by {
            assert(!condition(items[i]));
        }
        lemma_keep_none(shorter, condition);
        assert(!condition(items[items.len() - 1]));
    }
}

/// The distinct items of a bag do not depend on the order.
pub proof fn lemma_once<A>(items: Seq<A>)
    ensures
        forall|x: A| #[trigger] once(items).contains(x) <==> items.contains(x),
        forall|x: A| #[trigger]
            once(items).to_multiset().count(x) == (if items.contains(x) {
                1nat
            } else {
                0nat
            }),
    decreases items.len(),
{
    once(items).to_multiset_ensures();
    if items.len() > 0 {
        let shorter = items.drop_last();
        let last = items.last();
        lemma_once(shorter);
        once(shorter).to_multiset_ensures();
        assert forall|x: A| #[trigger] items.contains(x) <==> shorter.contains(x) || x == last by {
            if items.contains(x) {
                let i = choose|i: int| 0 <= i < items.len() && items[i] == x;
                if i < shorter.len() {
                    assert(shorter[i] == x);
                }
            }
            if shorter.contains(x) {
                let i = choose|i: int| 0 <= i < shorter.len() && shorter[i] == x;
                assert(items[i] == x);
            }
            assert(items[items.len() - 1] == last);
        }
        if !shorter.contains(last) {
            assert(once(items).to_multiset() =~= once(shorter).to_multiset().insert(last));
        }
        assert forall|x: A| #[trigger]
            once(items).to_multiset().count(x) == (if items.contains(x) {
                1nat
            } else {
                0nat
            }) by {
            assert(items.contains(x) <==> shorter.contains(x) || x == last);
            assert(once(shorter).to_multiset().count(x) == (if shorter.contains(x) {
                1nat
            } else {
                0nat
            }));
        }
        assert forall|x: A| #[trigger] once(items).contains(x) <==> items.contains(x) by {
            assert(once(items).to_multiset().count(x) == (if items.contains(x) {
                1nat
            } else {
                0nat
            }));
        }
    } else {
        assert forall|x: A| #[trigger]
            once(items).to_multiset().count(x) == (if items.contains(x) {
                1nat
            } else {
                0nat
            }) by {
            assert(!once(items).contains(x));
        }
    }
}

pub proof fn lemma_once_order<A>(a: Seq<A>, b: Seq<A>)
    requires
        same(a, b),
    ensures
        same(once(a), once(b)),
{
    lemma_same_items(a, b);
    lemma_once(a);
    lemma_once(b);
    assert forall|x: A| once(a).to_multiset().count(x) == once(b).to_multiset().count(x) by {
        assert(a.contains(x) <==> b.contains(x));
    }
    assert(once(a).to_multiset() =~= once(b).to_multiset());
}

/// Distinct items of which some are kept.
pub proof fn lemma_once_keep<A>(items: Seq<A>, condition: spec_fn(A) -> bool)
    ensures
        same(once(keep(items, condition)), keep(once(items), condition)),
    decreases items.len(),
{
    let f = |item: A|
        if condition(item) {
            seq![item]
        } else {
            seq![]
        };
    if items.len() > 0 {
        let shorter = items.drop_last();
        let last = items.last();
        lemma_once_keep(shorter, condition);
        lemma_keep_contains(shorter, condition, last);
        let kept = keep(shorter, condition);
        if condition(last) {
            assert(keep(items, condition) =~= kept.push(last));
            assert(kept.push(last).drop_last() =~= kept);
            if !shorter.contains(last) {
                lemma_gather_push(once(shorter), last, f);
                assert(keep(once(items), condition) =~= keep(once(shorter), condition) + seq![last]);
                assert(once(kept.push(last)) =~= once(kept) + seq![last]);
                lemma_same_concat(
                    once(kept),
                    seq![last],
                    keep(once(shorter), condition),
                    seq![last],
                );
            }
        } else {
            assert(keep(items, condition) =~= kept);
            if !shorter.contains(last) {
                lemma_gather_push(once(shorter), last, f);
                assert(keep(once(items), condition) =~= keep(once(shorter), condition));
            }
        }
    }
}

/// Gathering what is changed, from items that are changed, is changing what is
/// gathered.
pub proof fn lemma_gather_mapped<A, B>(
    items: Seq<A>,
    change_item: spec_fn(A) -> A,
    change: spec_fn(B) -> B,
    f: spec_fn(A) -> Seq<B>,
    g: spec_fn(A) -> Seq<B>,
)
    requires
        forall|i: int|
            0 <= i < items.len() ==> g(change_item(#[trigger] items[i])) == f(items[i]).map_values(
                change,
            ),
    ensures
        gather(items.map_values(change_item), g) == gather(items, f).map_values(change),
    decreases items.len(),
{
    if items.len() > 0 {
        let shorter = items.drop_last();
        assert forall|i: int| 0 <= i < shorter.len() implies g(change_item(#[trigger] shorter[i]))
            == f(shorter[i]).map_values(change) by {
            assert(g(change_item(items[i])) == f(items[i]).map_values(change));
        }
        lemma_gather_mapped(shorter, change_item, change, f, g);
        assert(items.map_values(change_item).drop_last() =~= shorter.map_values(change_item));
        assert(g(change_item(items[items.len() - 1])) == f(items[items.len() - 1]).map_values(
            change,
        ));
        assert(gather(items, f).map_values(change) =~= gather(shorter, f).map_values(change) + f(
            items.last(),
        ).map_values(change));
    } else {
        assert(gather(items.map_values(change_item), g) =~= gather(items, f).map_values(change));
    }
}

/// Keeping from changed items.
pub proof fn lemma_keep_mapped<A>(
    items: Seq<A>,
    change: spec_fn(A) -> A,
    before: spec_fn(A) -> bool,
    after: spec_fn(A) -> bool,
)
    requires
        forall|i: int|
            0 <= i < items.len() ==> after(change(#[trigger] items[i])) == before(items[i]),
    ensures
        keep(items.map_values(change), after) == keep(items, before).map_values(change),
{
    let f = |item: A|
        if before(item) {
            seq![item]
        } else {
            seq![]
        };
    let g = |item: A|
        if after(item) {
            seq![item]
        } else {
            seq![]
        };
    assert forall|i: int| 0 <= i < items.len() implies g(change(#[trigger] items[i])) == f(
        items[i],
    ).map_values(change) by {
        assert(after(change(items[i])) == before(items[i]));
        assert(g(change(items[i])) =~= f(items[i]).map_values(change));
    }
    lemma_gather_mapped(items, change, change, f, g);
}

/// The distinct ones of changed items, where different items stay different.
pub proof fn lemma_once_mapped<A>(items: Seq<A>, change: spec_fn(A) -> A)
    requires
        forall|i: int, j: int|
            0 <= i < items.len() && 0 <= j < items.len() && change(#[trigger] items[i]) == change(
                #[trigger] items[j],
            ) ==> items[i] == items[j],
    ensures
        once(items.map_values(change)) == once(items).map_values(change),
    decreases items.len(),
{
    if items.len() > 0 {
        let shorter = items.drop_last();
        let last = items.last();
        let changed = items.map_values(change);
        assert forall|i: int, j: int|
            0 <= i < shorter.len() && 0 <= j < shorter.len() && change(#[trigger] shorter[i])
                == change(#[trigger] shorter[j]) implies shorter[i] == shorter[j] by {
            assert(change(items[i]) == change(items[j]));
        }
        lemma_once_mapped(shorter, change);
        assert(changed.drop_last() =~= shorter.map_values(change));
        assert(shorter.contains(last) == shorter.map_values(change).contains(change(last))) by {
            if shorter.contains(last) {
                let i = choose|i: int| 0 <= i < shorter.len() && shorter[i] == last;
                assert(shorter.map_values(change)[i] == change(last));
            }
            if shorter.map_values(change).contains(change(last)) {
                let i = choose|i: int|
                    0 <= i < shorter.len() && shorter.map_values(change)[i] == change(last);
                assert(change(items[i]) == change(items[items.len() - 1]));
                assert(shorter[i] == last);
            }
        }
        if !shorter.contains(last) {
            assert(once(items).map_values(change) =~= once(shorter).map_values(change).push(
                change(last),
            ));
        }
    } else {
        assert(once(items.map_values(change)) =~= once(items).map_values(change));
    }
}

} // verus!
