//! Choosing the best of several candidates.

use vstd::prelude::*;

verus! {

/// Whether a key comes before another.
pub open spec fn key_less(left: (nat, nat), right: (nat, nat)) -> bool {
    left.0 < right.0 || left.0 == right.0 && left.1 < right.1
}

/// The first of the candidates with the least key. An index without a key is no
/// candidate.
pub open spec fn least(keys: Seq<Option<(nat, nat)>>) -> Option<int>
    decreases keys.len(),
{
    if keys.len() == 0 {
        None
    } else {
        let before = least(keys.drop_last());
        match keys.last() {
            Some(key) => match before {
                Some(i) => if key_less(key, keys[i].unwrap()) {
                    Some(keys.len() - 1)
                } else {
                    before
                },
                None => Some(keys.len() - 1),
            },
            None => before,
        }
    }
}

/// What makes a candidate the first with the least key.
pub proof fn lemma_least(keys: Seq<Option<(nat, nat)>>)
    ensures
        match least(keys) {
            Some(i) => {
                &&& 0 <= i < keys.len()
                &&& keys[i] is Some
                &&& forall|j: int|
                    0 <= j < keys.len() && (#[trigger] keys[j]) is Some ==> !key_less(
                        keys[j].unwrap(),
                        keys[i].unwrap(),
                    )
                &&& forall|j: int|
                    0 <= j < i && (#[trigger] keys[j]) is Some ==> key_less(
                        keys[i].unwrap(),
                        keys[j].unwrap(),
                    )
            },
            None => forall|j: int| 0 <= j < keys.len() ==> (#[trigger] keys[j]) is None,
        },
    decreases keys.len(),
{
    if keys.len() > 0 {
        let shorter = keys.drop_last();
        lemma_least(shorter);
        assert forall|j: int| 0 <= j < keys.len() - 1 implies #[trigger] keys[j] == shorter[j] by {}
    }
}

/// Whether a rank is below another: first by the number, then by the flag, then
/// by the cost, where less is better.
pub open spec fn rank_less(left: (nat, bool, nat), right: (nat, bool, nat)) -> bool {
    left.0 < right.0 || left.0 == right.0 && (!left.1 && right.1 || left.1 == right.1 && left.2
        > right.2)
}

/// The last of the candidates with the greatest rank. An index without a rank
/// is no candidate.
pub open spec fn greatest(ranks: Seq<Option<(nat, bool, nat)>>) -> Option<int>
    decreases ranks.len(),
{
    if ranks.len() == 0 {
        None
    } else {
        let before = greatest(ranks.drop_last());
        match ranks.last() {
            Some(rank) => match before {
                Some(i) => if rank_less(rank, ranks[i].unwrap()) {
                    before
                } else {
                    Some(ranks.len() - 1)
                },
                None => Some(ranks.len() - 1),
            },
            None => before,
        }
    }
}

/// What makes a candidate the last with the greatest rank.
pub proof fn lemma_greatest(ranks: Seq<Option<(nat, bool, nat)>>)
    ensures
        match greatest(ranks) {
            Some(i) => {
                &&& 0 <= i < ranks.len()
                &&& ranks[i] is Some
                &&& forall|j: int|
                    0 <= j < ranks.len() && (#[trigger] ranks[j]) is Some ==> !rank_less(
                        ranks[i].unwrap(),
                        ranks[j].unwrap(),
                    )
                &&& forall|j: int|
                    i < j < ranks.len() && (#[trigger] ranks[j]) is Some ==> rank_less(
                        ranks[j].unwrap(),
                        ranks[i].unwrap(),
                    )
            },
            None => forall|j: int| 0 <= j < ranks.len() ==> (#[trigger] ranks[j]) is None,
        },
    decreases ranks.len(),
{
    if ranks.len() > 0 {
        let shorter = ranks.drop_last();
        lemma_greatest(shorter);
        assert forall|j: int| 0 <= j < ranks.len() - 1 implies #[trigger] ranks[j]
            == shorter[j] by {}
    }
}

pub open spec fn key_view(key: Option<(usize, usize)>) -> Option<(nat, nat)> {
    match key {
        Some((size, penalty)) => Some((size as nat, penalty as nat)),
        None => None,
    }
}

pub open spec fn keys_view(keys: Seq<Option<(usize, usize)>>) -> Seq<Option<(nat, nat)>> {
    keys.map_values(|key: Option<(usize, usize)>| key_view(key))
}

pub open spec fn rank_view(rank: Option<(usize, bool, usize)>) -> Option<(nat, bool, nat)> {
    match rank {
        Some((number, flag, cost)) => Some((number as nat, flag, cost as nat)),
        None => None,
    }
}

pub open spec fn ranks_view(ranks: Seq<Option<(usize, bool, usize)>>) -> Seq<
    Option<(nat, bool, nat)>,
> {
    ranks.map_values(|rank: Option<(usize, bool, usize)>| rank_view(rank))
}

/// The first of the candidates with the least key.
pub fn pick_least(keys: &Vec<Option<(usize, usize)>>) -> (r: Option<usize>)
    ensures
        least(keys_view(keys@)) == match r {
            Some(i) => Some(i as int),
            None => None,
        },
        r matches Some(i) ==> i < keys@.len() && keys@[i as int] is Some,
{
    let ghost all = keys_view(keys@);
    let mut best: Option<(usize, usize, usize)> = None;
    for i in 0..keys.len()
        invariant
            all == keys_view(keys@),
            least(all.take(i as int)) == match best {
                Some((b, _, _)) => Some(b as int),
                None => None,
            },
            best matches Some((b, size, penalty)) ==> b < i && keys@[b as int] == Some(
                (size, penalty),
            ),
    {
        proof {
            assert(all.take(i + 1).drop_last() =~= all.take(i as int));
            assert(all[i as int] == key_view(keys@[i as int]));
        }
        match keys[i] {
            Some((size, penalty)) => match best {
                Some((b, best_size, best_penalty)) => {
                    assert(all.take(i + 1)[b as int] == key_view(keys@[b as int]));
                    if size < best_size || size == best_size && penalty < best_penalty {
                        best = Some((i, size, penalty));
                    }
                },
                None => {
                    best = Some((i, size, penalty));
                },
            },
            None => {},
        }
    }
    assert(all.take(all.len() as int) =~= all);
    match best {
        Some((b, _, _)) => Some(b),
        None => None,
    }
}

/// The last of the candidates with the greatest rank.
pub fn pick_greatest(ranks: &Vec<Option<(usize, bool, usize)>>) -> (r: Option<usize>)
    ensures
        greatest(ranks_view(ranks@)) == match r {
            Some(i) => Some(i as int),
            None => None,
        },
        r matches Some(i) ==> i < ranks@.len() && ranks@[i as int] is Some,
{
    let ghost all = ranks_view(ranks@);
    let mut best: Option<(usize, (usize, bool, usize))> = None;
    for i in 0..ranks.len()
        invariant
            all == ranks_view(ranks@),
            greatest(all.take(i as int)) == match best {
                Some((b, _)) => Some(b as int),
                None => None,
            },
            best matches Some((b, rank)) ==> b < i && ranks@[b as int] == Some(rank),
    {
        proof {
            assert(all.take(i + 1).drop_last() =~= all.take(i as int));
            assert(all[i as int] == rank_view(ranks@[i as int]));
        }
        match ranks[i] {
            Some(rank) => match best {
                Some((b, highest)) => {
                    assert(all.take(i + 1)[b as int] == rank_view(ranks@[b as int]));
                    let below = rank.0 < highest.0 || rank.0 == highest.0 && (!rank.1 && highest.1
                        || rank.1 == highest.1 && rank.2 > highest.2);
                    if !below {
                        best = Some((i, rank));
                    }
                },
                None => {
                    best = Some((i, rank));
                },
            },
            None => {},
        }
    }
    assert(all.take(all.len() as int) =~= all);
    match best {
        Some((b, _)) => Some(b),
        None => None,
    }
}

} // verus!
