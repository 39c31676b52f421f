//! The random signs that columns are mixed with.

use rand::rngs::StdRng;
use rand::{Rng, SeedableRng};
use vstd::prelude::*;

use crate::scalar::{is_minus_one, is_one, Scalar};

verus! {

/// The `i`-th boolean that `rand::rngs::StdRng` draws, counted from zero, when it is seeded
/// with `seed`.
pub uninterp spec fn std_rng_bool(seed: u64, i: int) -> bool;

/// The seed that is used where none is given.
pub const DEFAULT_SEED: u64 = 0xC0FFEE;

/// The seed in use.
pub open spec fn seed_or_default(seed: Option<u64>) -> u64 {
    match seed {
        Some(s) => s,
        None => DEFAULT_SEED,
    }
}

/// `r` is the sign of a random boolean: 1 for true, -1 for false.
pub open spec fn is_sign<T: Scalar>(b: bool, r: T) -> bool {
    if b {
        is_one(r)
    } else {
        is_minus_one(r)
    }
}

/// `StdRng::seed_from_u64` and then `Rng::random_iter` over booleans: the first `n` that the
/// generator draws. In the version in use the generator is ChaCha with twelve rounds, and a
/// boolean is the highest bit of the next 32-bit word, so they depend on the seed alone. The
/// documentation leaves another algorithm to later versions.
#[verifier::external_body]
fn random_bools(seed: u64, n: usize) -> (bools: Vec<bool>)
    requires
        n <= isize::MAX,
    ensures
        bools@ == Seq::new(n as nat, |i: int| std_rng_bool(seed, i)),
{
    StdRng::seed_from_u64(seed).random_iter().take(n).collect()
}

/// The seed in use.
pub fn chosen_seed(seed: Option<u64>) -> (s: u64)
    ensures
        s == seed_or_default(seed),
{
    match seed {
        Some(s) => s,
        None => DEFAULT_SEED,
    }
}

/// The signs of booleans.
pub fn signs_of<T: Scalar>(bools: &[bool]) -> (signs: Vec<T>)
    ensures
        signs@.len() == bools@.len(),
        forall|i: int| 0 <= i < bools@.len() ==> is_sign(bools@[i], #[trigger] signs@[i]),
{
    let mut signs: Vec<T> = Vec::new();
    let mut i: usize = 0;
    while i < bools.len()
        invariant
            i <= bools@.len(),
            signs@.len() == i,
            forall|l: int| 0 <= l < i ==> is_sign(bools@[l], #[trigger] signs@[l]),
        decreases bools@.len() - i,
    {
        let sign: T = if bools[i] {
            T::one()
        } else {
            T::minus_one()
        };
        signs.push(sign);
        i += 1;
    }
    signs
}

/// The first `n` random signs of a seed.
pub fn random_signs<T: Scalar>(seed: u64, n: usize) -> (signs: Vec<T>)
    requires
        n <= isize::MAX,
    ensures
        signs@.len() == n,
        forall|i: int| 0 <= i < n ==> is_sign(std_rng_bool(seed, i), #[trigger] signs@[i]),
{
    let bools: Vec<bool> = random_bools(seed, n);
    let signs: Vec<T> = signs_of(bools.as_slice());
    assert forall|i: int| 0 <= i < n implies is_sign(
        std_rng_bool(seed, i),
        #[trigger] signs@[i],
    ) by {
        assert(bools@[i] == std_rng_bool(seed, i));
    }
    signs
}

} // verus!
