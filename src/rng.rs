use vstd::prelude::*;

use rand::rngs::StdRng;
use rand::{Rng, SeedableRng};

verus! {

#[verifier::external_type_specification]
#[verifier::external_body]
pub struct ExStdRng(rand::rngs::StdRng);

/// The random number generator that every draw of the library goes through.
pub struct RngWrapper(pub StdRng);

/// Relies on `SeedableRng::from_entropy`: a generator seeded by the operating system.
#[verifier::external_body]
fn entropy_rng() -> StdRng {
    StdRng::from_entropy()
}

/// Relies on `SeedableRng::seed_from_u64`: a generator whose draws follow from the seed.
#[verifier::external_body]
fn seeded_rng(seed: u64) -> StdRng {
    StdRng::seed_from_u64(seed)
}

/// Relies on `Rng::gen_range` over `0..n`: a value below `n` (it panics on an empty range).
#[verifier::external_body]
pub(crate) fn draw_index(rng: &mut StdRng, n: usize) -> (r: usize)
    requires
        n > 0,
    ensures
        r < n,
{
    rng.gen_range(0..n)
}

impl RngWrapper {
    /// A generator seeded by the operating system.
    pub fn new() -> (r: RngWrapper) {
        RngWrapper(entropy_rng())
    }

    /// A generator whose draws are fixed by `seed`.
    pub fn from_seed(seed: u64) -> (r: RngWrapper) {
        RngWrapper(seeded_rng(seed))
    }

    /// `digits` random decimal digits.
    pub fn generate_digits(&mut self, digits: usize) -> (r: Vec<u8>)
        ensures
            r@.len() == digits,
            forall|i: int| 0 <= i < digits ==> #[trigger] r@[i] < 10,
    {
        let mut r: Vec<u8> = Vec::new();
        for i in 0..digits
            invariant
                r@.len() == i,
                forall|j: int| 0 <= j < i ==> #[trigger] r@[j] < 10,
        {
            let d = draw_index(&mut self.0, 10);
            r.push(d as u8);
        }
        r
    }
}

} // verus!
