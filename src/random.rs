//! The seeded random generator and the draws the library makes from it.

use vstd::prelude::*;
use rand::rngs::StdRng;

verus! {

#[verifier::external_type_specification]
#[verifier::external_body]
pub struct ExStdRng(StdRng);

/// Relies on `rand::Rng::gen_range` over `0..n`: it returns a value of the
/// range, and panics only on an empty range.
#[verifier::external_body]
pub(crate) fn random_below(rng: &mut StdRng, n: usize) -> (r: usize)
    requires
        n > 0,
    ensures
        r < n,
{
    rand::Rng::gen_range(rng, 0..n)
}

/// Relies on `rand::seq::IteratorRandom::choose`: `None` exactly when the
/// iterator is empty, else one of its items.
#[verifier::external_body]
pub(crate) fn choose_name(rng: &mut StdRng, candidates: &Vec<String>) -> (r: Option<String>)
    ensures
        r is None <==> candidates@.len() == 0,
        r matches Some(s) ==> exists|i: int| 0 <= i < candidates@.len() && candidates@[i] == s,
{
    rand::seq::IteratorRandom::choose(candidates.iter().cloned(), rng)
}

/// Relies on `rand::Rng::gen` with the thread-local generator: any `i32`.
#[verifier::external_body]
pub(crate) fn random_seed() -> (r: i32) {
    rand::Rng::gen::<i32>(&mut rand::thread_rng())
}

} // verus!
