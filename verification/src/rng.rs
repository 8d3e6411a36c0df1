//! The trusted boundary to the `rand` crate: the two kinds of draw the
//! engine needs, on the thread-local generator that callers bring along.
//! Everything else about randomness is verified against the contracts
//! stated here.

use vstd::prelude::*;

verus! {

/// `rand`'s thread-local generator; its state is opaque to the verifier.
#[verifier::external_type_specification]
#[verifier::external_body]
pub struct ExThreadRng(rand::rngs::ThreadRng);

/// An ASCII letter or digit: the bytes `A`-`Z`, `a`-`z` and `0`-`9`.
pub open spec fn is_alnum_byte(b: u8) -> bool {
    (65 <= b <= 90) || (97 <= b <= 122) || (48 <= b <= 57)
}

/// Relies on `rand::distributions::Alphanumeric`, whose `Distribution<u8>`
/// implementation returns one byte drawn from the 62-character set
/// `A`-`Z`, `a`-`z`, `0`-`9`.
#[verifier::external_body]
pub fn sample_alnum_byte(rng: &mut rand::rngs::ThreadRng) -> (b: u8)
    ensures
        is_alnum_byte(b),
{
    rand::Rng::sample(rng, rand::distributions::Alphanumeric)
}

/// Relies on `rand::Rng::gen_range` over `lo..hi`: a draw within the range.
/// The empty range, on which it panics, is excluded here.
#[verifier::external_body]
pub fn gen_index(rng: &mut rand::rngs::ThreadRng, lo: usize, hi: usize) -> (r: usize)
    requires
        lo < hi,
    ensures
        lo <= r < hi,
{
    rand::Rng::gen_range(rng, lo..hi)
}

} // verus!
