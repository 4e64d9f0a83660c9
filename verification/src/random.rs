//! The one place where the randomness source is asked for bytes.
use rand_core::RngCore;
use vstd::prelude::*;

verus! {

/// The error that a randomness source of `rand_core` reports.
#[verifier::external_type_specification]
#[verifier::external_body]
pub struct ExRandError(rand_core::Error);

/// `RngCore::try_fill_bytes` on a buffer of one byte: the byte that the
/// source produced, or the error that it reported. Nothing is claimed of
/// the byte.
#[verifier::external_body]
pub(crate) fn draw_byte<R: RngCore>(rng: &mut R) -> (r: Result<u8, rand_core::Error>) {
    let mut buffer = [0u8];
    match rng.try_fill_bytes(&mut buffer) {
        Ok(()) => Ok(buffer[0]),
        Err(e) => Err(e),
    }
}

} // verus!
