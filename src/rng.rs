use vstd::prelude::*;

use rand::rngs::StdRng;
use rand::seq::{IndexedRandom, IteratorRandom, SliceRandom};
use rand::{Rng, SeedableRng};

verus! {

/// Relies on `rand::Rng::random_range` over `0..n`: a value of the range,
/// which must not be empty.
#[verifier::external_body]
pub(crate) fn random_below(n: usize) -> (r: usize)
    requires
        n > 0,
    ensures
        r < n,
{
    rand::rng().random_range(0..n)
}

/// Relies on `rand::Rng::random` for `bool`: a fair coin.
#[verifier::external_body]
pub(crate) fn random_flag() -> (r: bool) {
    rand::rng().random::<bool>()
}

/// Relies on `rand::seq::SliceRandom::shuffle`: the slice is permuted in place.
#[verifier::external_body]
pub(crate) fn shuffle_vec<T>(v: &mut Vec<T>)
    ensures
        final(v)@.to_multiset() == old(v)@.to_multiset(),
{
    v.shuffle(&mut rand::rng())
}

/// Relies on `rand::seq::IteratorRandom::choose_multiple` over `0..n`:
/// `min(k, n)` distinct values drawn from the range (a reservoir filled with
/// the first values, whose slots are only ever replaced by later ones).
#[verifier::external_body]
pub(crate) fn choose_below(n: usize, k: usize) -> (r: Vec<usize>)
    ensures
        r@.len() == if k <= n { k } else { n },
        forall|i: int| 0 <= i < r@.len() ==> r@[i] < n,
        forall|i: int, j: int| 0 <= i < j < r@.len() ==> r@[i] != r@[j],
{
    (0..n).choose_multiple(&mut rand::rng(), k)
}

/// Relies on `rand::seq::IndexedRandom::choose_multiple` with a generator
/// from `rand::SeedableRng::seed_from_u64(seed)`: `min(k, len)` of the
/// elements, cloned.
#[verifier::external_body]
pub(crate) fn choose_from<D: Clone>(v: Vec<D>, seed: u64, k: usize) -> (r: Vec<D>)
    ensures
        r@.len() == if k <= v@.len() { k } else { v@.len() as usize },
{
    v.choose_multiple(&mut StdRng::seed_from_u64(seed), k).cloned().collect()
}

} // verus!
