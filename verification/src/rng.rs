//! Randomness for key, polynomial and nonce generation.
//!
//! The only trusted surface of the crate: drawing raw random words from the
//! operating-system-seeded generator.  Everything derived from them —
//! reduction into the scalar field, rejection of zero, distinctness of
//! identifiers — is verified code that holds for every value the generator
//! may return.

use vstd::prelude::*;
use crate::arith::Q;
use crate::Error;

verus! {

/// How often a rejected draw (zero scalar, colliding identifier) is retried
/// before the operation reports failure instead of looping forever.
pub const SAMPLE_RETRIES: u64 = 64;

/// Relies on rand::random: returns a uniformly distributed machine word.
/// Nothing is assumed about the value.
#[verifier::external_body]
fn random_u64() -> u64 {
    rand::random::<u64>()
}

/// Draw a random nonzero scalar; a zero draw is resampled, and the error
/// surfaces only if the retry budget is exhausted.
pub fn generate_random_scalar() -> (r: Result<u64, Error>)
    ensures
        r is Ok ==> 0 < r->Ok_0 < Q,
        r is Err ==> r->Err_0 == Error::InvalidScalar,
{
    let mut tries: u64 = 0;
    while tries < SAMPLE_RETRIES
        decreases SAMPLE_RETRIES - tries,
    {
        let x = random_u64() % Q;
        if x != 0 {
            return Ok(x);
        }
        tries = tries + 1;
    }
    Err(Error::InvalidScalar)
}

} // verus!
