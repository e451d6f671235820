//! Sources of randomness for DNS transaction ids and ICMP payloads.

use vstd::prelude::*;
use rand::Rng;

verus! {

/// Relies on rand's thread_rng and Rng::gen_range: a uniformly random 16-bit
/// value. Nothing can be promised of the value itself.
#[verifier::external_body]
pub(crate) fn random_u16() -> u16 {
    rand::thread_rng().gen_range(0..=u16::MAX)
}

/// Relies on rand's thread_rng and Rng::gen: a vector of `len` random bytes.
/// Only the length holds of every outcome.
#[verifier::external_body]
pub(crate) fn random_bytes(len: u16) -> (r: Vec<u8>)
    ensures
        r@.len() == len as nat,
{
    let mut rng = rand::thread_rng();
    (0..len).map(|_| rng.gen()).collect()
}

} // verus!
