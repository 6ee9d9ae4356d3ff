//! The random source used by key generation, passed in explicitly so that
//! every draw is an injected capability rather than hidden global state.

use rand::RngExt;
use rand::rngs::ThreadRng;
use vstd::prelude::*;

verus! {

#[verifier::external_type_specification]
#[verifier::external_body]
pub struct ExThreadRng(ThreadRng);

/// Relies on rand::rng: hands out the thread-local random generator.
/// (It may panic if the operating system's entropy source fails during the
/// very first seeding; that does not depend on any argument.)
#[verifier::external_body]
pub fn fresh_rng() -> ThreadRng {
    rand::rng()
}

/// Relies on rand::RngExt::random_range over the inclusive range `lo..=hi`:
/// the sample always lies within the range. An empty range would panic, so
/// `lo <= hi` is required.
#[verifier::external_body]
pub fn random_range_inclusive(rng: &mut ThreadRng, lo: u64, hi: u64) -> (r: u64)
    requires
        lo <= hi,
    ensures
        lo <= r <= hi,
{
    rng.random_range(lo..=hi)
}

} // verus!
