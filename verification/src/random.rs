//! Randomness from the operating system.

use vstd::prelude::*;

use crate::bytes::u64_at;

verus! {

/// The operating system gave no random bytes.
#[derive(Clone, Copy, Debug, PartialEq, Eq)]
pub struct NoRandomness;

/// `try_fill_bytes` of `rand::rngs::OsRng` on 32 bytes, `None` where it fails. Nothing
/// is claimed of the bytes.
#[verifier::external_body]
pub(crate) fn random_bytes() -> (r: Option<[u8; 32]>) {
    let mut b = [0u8; 32];
    rand::RngCore::try_fill_bytes(&mut rand::rngs::OsRng, &mut b).ok()?;
    Some(b)
}

/// `n` random numbers. It fails only where the operating system was asked.
pub(crate) fn random_draws(n: usize) -> (r: Option<Vec<u64>>)
    ensures
        n == 0 ==> r is Some,
        r is Some ==> r->0@.len() == n,
{
    let mut draws: Vec<u64> = Vec::new();
    while draws.len() < n
        invariant
            draws@.len() <= n,
        decreases n - draws@.len(),
    {
        match random_bytes() {
            Some(b) => draws.push(u64_at(b.as_slice(), 0)),
            None => {
                return None;
            },
        }
    }
    Some(draws)
}

} // verus!
