//! Drawing one of several candidates at random, each with the chance that
//! its weight gives it.

use rand::distributions::WeightedError;
use rand::distributions::WeightedIndex;
use rand::rngs::ThreadRng;
use vstd::prelude::*;

verus! {

/// A distribution over the places of a list of weights, as
/// `rand::distributions::WeightedIndex` holds it.
#[verifier::external_body]
pub struct Weighted {
    inner: WeightedIndex<u128>,
}

/// `rand::distributions::WeightedError`: why no distribution was made.
#[verifier::external_type_specification]
#[verifier::external_body]
pub struct ExWeightedError(WeightedError);

/// `rand::rngs::ThreadRng`: the random number generator of a thread.
#[verifier::external_type_specification]
#[verifier::external_body]
pub struct ExThreadRng(ThreadRng);

/// The weights that a distribution was made from, in their order.
pub uninterp spec fn weights_of(distribution: Weighted) -> Seq<u128>;

/// The sum of the weights.
pub open spec fn total_weight(weights: Seq<u128>) -> nat
    decreases weights.len(),
{
    if weights.len() == 0 {
        0
    } else {
        total_weight(weights.drop_last()) + weights.last() as nat
    }
}

/// `rand::distributions::WeightedIndex::new`: a distribution over the
/// places of `weights` is made exactly when there is a weight and the
/// weights do not add up to zero. The sum must fit the weights' type.
#[verifier::external_body]
fn weighted_index(weights: &Vec<u128>) -> (r: Result<Weighted, WeightedError>)
    requires
        total_weight(weights@) <= u128::MAX,
    ensures
        (r is Ok) == (weights@.len() > 0 && total_weight(weights@) > 0),
        r is Ok ==> weights_of(r->Ok_0) == weights@,
{
    WeightedIndex::new(weights).map(|inner| Weighted { inner })
}

/// `rand::thread_rng`: the random number generator of this thread.
pub assume_specification[ rand::thread_rng ]() -> (r: ThreadRng)
;

/// `WeightedIndex::sample`: the place drawn lies among the weights that the
/// distribution was made from, and its weight is not zero.
#[verifier::external_body]
fn sample_index(distribution: &Weighted, rng: &mut ThreadRng) -> (r: usize)
    ensures
        r < weights_of(*distribution).len(),
        weights_of(*distribution)[r as int] > 0,
{
    rand::distributions::Distribution::sample(&distribution.inner, rng)
}

/// Draws a place among `weights` at random; a place is drawn with the
/// chance that its weight has in the sum of the weights. Nothing is drawn
/// where there is no weight or the weights add up to zero.
pub fn draw(weights: &Vec<u32>) -> (r: Option<usize>)
    ensures
        r is Some <==> exists|i: int| 0 <= i < weights@.len() && weights@[i] > 0,
        r is Some ==> r->0 < weights@.len() && weights@[r->0 as int] > 0,
{
    let mut wide: Vec<u128> = Vec::new();
    let mut i: usize = 0;
    while i < weights.len()
        invariant
            i <= weights.len(),
            wide@.len() == i,
            forall|j: int| 0 <= j < i ==> wide@[j] == weights@[j],
            total_weight(wide@) <= i * 0xFFFF_FFFF,
            total_weight(wide@) > 0 <==> exists|j: int| 0 <= j < i && weights@[j] > 0,
        decreases weights.len() - i,
    {
        let ghost before = wide@;
        wide.push(weights[i] as u128);
        proof {
            assert(wide@.drop_last() =~= before);
            assert(i * 0xFFFF_FFFF + 0xFFFF_FFFF == (i + 1) * 0xFFFF_FFFF) by (nonlinear_arith);
            if total_weight(wide@) > 0 {
                if weights@[i as int] > 0 {
                } else {
                    let j = choose|j: int| 0 <= j < i && weights@[j] > 0;
                    assert(0 <= j < i + 1 && weights@[j] > 0);
                }
            }
        }
        i += 1;
    }
    assert(weights.len() * 0xFFFF_FFFF <= u128::MAX) by (nonlinear_arith)
        requires
            weights.len() <= usize::MAX,
            usize::MAX <= 0xFFFF_FFFF_FFFF_FFFF,
    ;
    match weighted_index(&wide) {
        Ok(distribution) => {
            let mut rng = rand::thread_rng();
            let at = sample_index(&distribution, &mut rng);
            Some(at)
        },
        Err(_) => None,
    }
}

} // verus!
