//! A minimal proof-of-work hash chain.
//!
//! A `MagicBook` owns an append-only sequence of `Spell` records, each
//! cryptographically linked to its predecessor by a SHA-256 digest, together
//! with a per-wizard index into that sequence. Mining searches for a nonce
//! under which a spell's digest starts with a required number of zero bytes.

pub mod chain;
pub mod digest;
pub mod encoding;

use vstd::prelude::*;

verus! {

/// Compares two byte vectors element by element.
pub fn bytes_eq(a: &Vec<u8>, b: &Vec<u8>) -> (r: bool)
    ensures
        r == (a@ == b@),
{
    if a.len() != b.len() {
        assert(a@ != b@) by {
            assert(a@.len() != b@.len());
        }
        return false;
    }
    let mut i: usize = 0;
    while i < a.len()
        invariant
            i <= a@.len(),
            a@.len() == b@.len(),
            forall|j: int| 0 <= j < i ==> a@[j] == b@[j],
        decreases a@.len() - i,
    {
        if a[i] != b[i] {
            return false;
        }
        i += 1;
    }
    proof {
        assert(a@ =~= b@);
    }
    true
}

} // verus!
