//! Randomness drawn from the thread-local generator.

use num::bigint::RandBigInt;
use num::ToPrimitive;
use rand::seq::SliceRandom;
use vstd::arithmetic::power2::pow2;
use vstd::math::abs;
use vstd::prelude::*;

verus! {

/// Relies on num's `RandBigInt::gen_bigint` over rand's `thread_rng`: a
/// signed value whose magnitude has at most `n` bits.
#[verifier::external_body]
pub fn rand_value(n: usize) -> (r: i128)
    requires
        n <= 126,
    ensures
        abs(r as int) < pow2(n as nat),
{
    let mut rng = rand::thread_rng();
    rng.gen_bigint(n as u64).to_i128().unwrap()
}

/// Relies on rand's `SliceRandom::shuffle`: the items are only reordered.
#[verifier::external_body]
pub(crate) fn shuffle(v: &mut Vec<usize>)
    ensures
        final(v)@.to_multiset() == old(v)@.to_multiset(),
{
    v.shuffle(&mut rand::thread_rng());
}

} // verus!
