//! The Fiat-Shamir transcript: an owned, sequentially updated state that
//! turns the interactive sumcheck into a non-interactive one.
//!
//! The transcript is seeded from the circuit's structural serialization,
//! absorbs every proof byte in order, and derives each challenge by
//! hashing the state; prover and verifier replay the identical derivation,
//! so no external randomness influences the challenges.

use crate::codec::{dec8, le_val};
use crate::field::{p, Fr, MODULUS};
use vstd::arithmetic::div_mod::lemma_mod_bound;
use vstd::prelude::*;

verus! {

/// The 32-byte digest that the hash function assigns to a byte sequence.
/// Its exact value is outside this library's reasoning; both sides of the
/// protocol only rely on it being a function of the input bytes alone.
pub uninterp spec fn sha256_of(bytes: Seq<u8>) -> Seq<u8>;

/// Relies on sha2::Sha256::digest: a 32-byte digest computed from the
/// input bytes alone.
#[verifier::external_body]
fn sha256(bytes: &Vec<u8>) -> (r: Vec<u8>)
    ensures
        r@ == sha256_of(bytes@),
        r@.len() == 32,
{
    let d = <sha2::Sha256 as sha2::Digest>::digest(bytes.as_slice());
    d.as_slice().to_vec()
}

/// The content digest of a byte buffer (an integrity fingerprint for
/// diagnostics, not part of verification).
pub fn content_digest(bytes: &Vec<u8>) -> (r: Vec<u8>)
    ensures
        r@ == sha256_of(bytes@),
        r@.len() == 32,
{
    sha256(bytes)
}

/// The challenge a transcript state determines: the first eight digest
/// bytes, reduced to a canonical residue.
pub open spec fn challenge_of(state: Seq<u8>) -> int {
    le_val(sha256_of(state).subrange(0, 8)) % p()
}

/// The state that follows a challenge derivation: the digest itself.
pub open spec fn next_state(state: Seq<u8>) -> Seq<u8> {
    sha256_of(state)
}

/// The Fiat-Shamir transcript state.
pub struct Transcript {
    pub state: Vec<u8>,
}

impl Transcript {
    /// A fresh transcript over the given seed.
    pub fn new(seed: Vec<u8>) -> (r: Transcript)
        ensures
            r.state@ == seed@,
    {
        Transcript { state: seed }
    }

    /// Absorbs message bytes into the state.
    pub fn absorb(&mut self, bytes: &Vec<u8>)
        ensures
            final(self).state@ == old(self).state@ + bytes@,
    {
        crate::codec::push_bytes(&mut self.state, bytes);
    }

    /// Draws the next challenge: hashes the state, reduces the first eight
    /// digest bytes to a residue, and replaces the state by the digest.
    pub fn challenge(&mut self) -> (r: Fr)
        ensures
            r.ok(),
            r.val() == challenge_of(old(self).state@),
            final(self).state@ == next_state(old(self).state@),
    {
        let h = sha256(&self.state);
        let v = dec8(&h, 0);
        let c = v % MODULUS;
        proof {
            lemma_mod_bound(v as int, MODULUS as int);
            assert(h@.subrange(0, 8) =~= sha256_of(old(self).state@).subrange(0, 8));
        }
        self.state = h;
        Fr { v: c }
    }
}

} // verus!
