//! Cryptographic primitives used by the challenge protocol: the SHA-256
//! commitment digest, fresh random draws, and a constant-time byte
//! comparison.

use vstd::prelude::*;

use rand::Rng;
use sha2::Digest;

verus! {

/// Number of bytes in a commitment digest, a preimage and a random value.
pub const SECRET_LEN: usize = 32;

/// The SHA-256 digest of a byte sequence. The digest is a pure function of
/// its input; nothing further is assumed of it.
pub uninterp spec fn sha256(data: Seq<u8>) -> Seq<u8>;

/// Relies on `sha2::Sha256::digest`: the SHA-256 digest of the input,
/// 32 bytes long, depending on the input bytes alone.
#[verifier::external_body]
pub(crate) fn sha256_digest(data: &Vec<u8>) -> (r: Vec<u8>)
    ensures
        r@ == sha256(data@),
        r@.len() == SECRET_LEN,
{
    sha2::Sha256::digest(data.as_slice()).to_vec()
}

/// Relies on `rand::thread_rng` and `Rng::gen`: 32 bytes drawn from a
/// cryptographically strong generator. Nothing is assumed of the values
/// beyond their count.
#[verifier::external_body]
pub(crate) fn random_bytes() -> (r: Vec<u8>)
    ensures
        r@.len() == SECRET_LEN,
{
    let bytes: [u8; 32] = rand::thread_rng().gen();
    bytes.to_vec()
}

/// Compares two byte strings without an early exit on the first differing
/// byte, so that the comparison of a revealed preimage's digest against a
/// commitment takes time independent of where the difference lies.
pub fn bytes_eq(a: &Vec<u8>, b: &Vec<u8>) -> (r: bool)
    ensures
        r <==> a@ == b@,
{
    if a.len() != b.len() {
        return false;
    }
    let mut diff: u8 = 0;
    let mut i: usize = 0;
    while i < a.len()
        invariant
            i <= a.len(),
            a.len() == b.len(),
            diff == 0 <==> (forall|j: int| 0 <= j < i ==> a@[j] == b@[j]),
        decreases a.len() - i,
    {
        let ai = a[i];
        let bi = b[i];
        let step: u8 = ai ^ bi;
        proof {
            assert(step == 0 <==> ai == bi) by (bit_vector)
                requires
                    step == ai ^ bi,
            ;
            assert((diff | step) == 0 <==> diff == 0 && step == 0) by (bit_vector);
        }
        diff = diff | step;
        i += 1;
    }
    if diff == 0 {
        proof {
            assert(a@ =~= b@);
        }
        true
    } else {
        false
    }
}

} // verus!
