//! The cryptographic digest and the wall clock, taken from outside the
//! verified code.

use vstd::prelude::*;

verus! {

/// What the SHA-256 digest of a byte sequence is; a function of the input
/// bytes alone.
pub uninterp spec fn sha256_of(bytes: Seq<u8>) -> Seq<u8>;

/// Relies on ring::digest::digest with ring::digest::SHA256: the digest
/// depends on the input bytes alone and is SHA256_OUTPUT_LEN == 32 bytes
/// long. ring::digest::digest panics on a message too long for SHA-256,
/// hence the bound on the input length.
#[verifier::external_body]
pub(crate) fn sha256(bytes: &Vec<u8>) -> (r: Vec<u8>)
    requires
        bytes@.len() < 0x2000000000000000,
    ensures
        r@ == sha256_of(bytes@),
        r@.len() == 32,
{
    ring::digest::digest(&ring::digest::SHA256, bytes.as_slice()).as_ref().to_vec()
}

/// Relies on std::time::SystemTime: `now().duration_since(UNIX_EPOCH)` gives
/// the seconds since the Unix epoch, or an error when the clock reads
/// earlier than the epoch, in which case this returns None. Nothing is
/// promised of the value: it depends on the machine's clock.
#[verifier::external_body]
pub(crate) fn current_unix_seconds() -> (r: Option<u64>)
{
    match std::time::SystemTime::now().duration_since(std::time::UNIX_EPOCH) {
        Ok(d) => Some(d.as_secs()),
        Err(_) => None,
    }
}

} // verus!
