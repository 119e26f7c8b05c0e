//! The crate's only randomness: a seeded generator and a weighted index
//! draw, both supplied by the rand crate behind trusted declarations.

use vstd::prelude::*;

verus! {

/// Sum of a weight list.
pub open spec fn weight_total(ws: Seq<u32>) -> int
    decreases ws.len(),
{
    if ws.len() == 0 {
        0
    } else {
        ws[0] + weight_total(ws.subrange(1, ws.len() as int))
    }
}

/// The sum of a weight list with one positive entry is positive, and a sum
/// can only be positive when some entry is.
pub proof fn lemma_weight_total_positive(ws: Seq<u32>, i: int)
    requires
        0 <= i < ws.len(),
        ws[i] > 0,
    ensures
        weight_total(ws) > 0,
    decreases ws.len(),
{
    lemma_weight_total_nonneg(ws.subrange(1, ws.len() as int));
    if i > 0 {
        lemma_weight_total_positive(ws.subrange(1, ws.len() as int), i - 1);
    }
}

/// No weight is negative, so no sum is.
pub proof fn lemma_weight_total_nonneg(ws: Seq<u32>)
    ensures
        weight_total(ws) >= 0,
    decreases ws.len(),
{
    if ws.len() > 0 {
        lemma_weight_total_nonneg(ws.subrange(1, ws.len() as int));
    }
}

#[verifier::external_type_specification]
#[verifier::external_body]
pub struct ExStdRng(rand::rngs::StdRng);

/// A weighted discrete distribution over list positions, carried by rand's
/// `WeightedIndex` (whose own declaration Verus refuses for its trait
/// bounds).
#[verifier::external_body]
pub struct WeightedTable {
    dist: rand::distributions::WeightedIndex<u32>,
}

/// The weight list a `WeightedTable` was built from.
pub uninterp spec fn weights_of(d: WeightedTable) -> Seq<u32>;

/// Relies on rand's `SeedableRng::seed_from_u64` for `StdRng`: builds a
/// generator from the seed.
#[verifier::external_body]
pub(crate) fn seed_rng(seed: u64) -> rand::rngs::StdRng {
    rand::SeedableRng::seed_from_u64(seed)
}

/// Relies on rand's `WeightedIndex::new`: over `u32` weights it fails
/// exactly on an empty or all-zero list, a negative weight being
/// impossible; the sum must fit the weight type.
#[verifier::external_body]
pub(crate) fn make_weighted(weights: &Vec<u32>) -> (r: Option<WeightedTable>)
    requires
        weight_total(weights@) <= u32::MAX as int,
    ensures
        r is Some <==> weight_total(weights@) > 0,
        r matches Some(d) ==> weights_of(d) == weights@,
{
    match rand::distributions::WeightedIndex::new(weights) {
        Ok(d) => Some(WeightedTable { dist: d }),
        Err(_) => None,
    }
}

/// Relies on rand's `WeightedIndex::sample`: the drawn index always lies
/// within the weight list and its weight is positive.
#[verifier::external_body]
pub(crate) fn sample_index(d: &WeightedTable, rng: &mut rand::rngs::StdRng) -> (i: usize)
    ensures
        i < weights_of(*d).len(),
        weights_of(*d)[i as int] > 0,
{
    rand::distributions::Distribution::sample(&d.dist, rng)
}

} // verus!
