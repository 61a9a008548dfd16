//! Normalization discards the order of joins.

use vstd::prelude::*;

use crate::algebra::Plan;
use crate::arrange::lemma_one_order;
use crate::bags::lemma_same_swap;
use crate::factors::join_factors;
use crate::normalize::normalize;
use crate::type_inference::Types;

verus! {

/// Joins that differ only in the order of their sides and in their keys are
/// normalized to the same plan.
pub proof fn law_join_sides_swap(
    a: Plan,
    b: Plan,
    k1: Seq<Seq<char>>,
    k2: Seq<Seq<char>>,
    types: Types,
)
    ensures
        normalize((Plan::Join { left: Box::new(a), right: Box::new(b), keys: k1 }), types)
            == normalize((Plan::Join { left: Box::new(b), right: Box::new(a), keys: k2 }), types),
{
    let (x, y) = (join_factors(normalize(a, types)), join_factors(normalize(b, types)));
    lemma_same_swap(x, y);
    lemma_one_order(x + y, y + x);
}

} // verus!
