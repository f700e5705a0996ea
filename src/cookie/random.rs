//! The random draws that sampling needs, taken from `rand`.

use rand::distributions::Distribution;
use rand::distributions::WeightedIndex;
use rand::rngs::ThreadRng;
use rand::Rng;
use vstd::prelude::*;

verus! {

#[verifier::external_type_specification]
#[verifier::external_body]
pub struct ExThreadRng(ThreadRng);

/// The sum of the weights.
pub open spec fn weight_sum(w: Seq<u64>) -> nat
    decreases w.len(),
{
    if w.len() == 0 {
        0
    } else {
        weight_sum(w.drop_last()) + (w.last() as nat)
    }
}

/// Relies on `rand::Rng::gen_range`: a value in `0..n`; it panics only
/// when the range is empty.
#[verifier::external_body]
pub(crate) fn random_below(rng: &mut ThreadRng, n: usize) -> (r: usize)
    requires
        n > 0,
    ensures
        r < n,
{
    rng.gen_range(0..n)
}

/// Relies on `rand::distributions::WeightedIndex`: `new` fails when there
/// is no weight or every weight is zero (unsigned weights are never
/// negative, and their total must not overflow); a draw is an index whose
/// weight is positive.
#[verifier::external_body]
pub(crate) fn weighted_draw(rng: &mut ThreadRng, weights: &Vec<u64>) -> (r: Option<usize>)
    requires
        weight_sum(weights@) <= u64::MAX,
    ensures
        r is None <==> weight_sum(weights@) == 0,
        r matches Some(i) ==> i < weights@.len() && weights@[i as int] > 0,
{
    match WeightedIndex::new(weights.iter()) {
        Ok(d) => Some(d.sample(rng)),
        Err(_) => None,
    }
}

/// The total of `w`, or `None` when it does not fit in 64 bits.
pub fn checked_total(w: &Vec<u64>) -> (r: Option<u64>)
    ensures
        r matches Some(t) ==> t == weight_sum(w@),
        r is None ==> weight_sum(w@) > u64::MAX,
{
    let mut t: u64 = 0;
    let mut i: usize = 0;
    while i < w.len()
        invariant
            i <= w@.len(),
            t == weight_sum(w@.take(i as int)),
        decreases w@.len() - i,
    {
        assert(w@.take(i + 1).drop_last() =~= w@.take(i as int));
        if t > u64::MAX - w[i] {
            proof {
                lemma_weight_sum_prefix(w@, i + 1);
            }
            return None;
        }
        t = t + w[i];
        i += 1;
    }
    assert(w@.take(i as int) =~= w@);
    Some(t)
}

/// A prefix weighs no more than the whole.
pub proof fn lemma_weight_sum_prefix(w: Seq<u64>, k: int)
    requires
        0 <= k <= w.len(),
    ensures
        weight_sum(w.take(k)) <= weight_sum(w),
    decreases w.len(),
{
    if k < w.len() {
        assert(w.drop_last().take(k) =~= w.take(k));
        lemma_weight_sum_prefix(w.drop_last(), k);
    } else {
        assert(w.take(k) =~= w);
    }
}

} // verus!
