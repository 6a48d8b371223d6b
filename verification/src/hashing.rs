//! The two parametric collaborators of the digest protocol: the 32-byte hash
//! function (SHA-256) and the canonical value encoder. Both are pure
//! functions of their input; the digest protocol composes nothing else.

use vstd::prelude::*;
use crypto::digest::Digest;

verus! {

/// The SHA-256 digest of a byte sequence. The function itself is left
/// unspecified: every fact the library states about it goes through this
/// name, so equal inputs give equal digests and nothing more is assumed.
pub uninterp spec fn sha256_of(data: Seq<u8>) -> Seq<u8>;

/// The canonical byte encoding of a stored value: deterministic and injective
/// on `u64`, so two values collide in the digest only if equal.
pub uninterp spec fn encoding_of(v: u64) -> Seq<u8>;

/// Relies on crypto's `Sha256` (`Digest::new`, `input`, `result`): `result`
/// fills exactly 32 output bytes, a pure function of the bytes fed to
/// `input` alone.
#[verifier::external_body]
pub(crate) fn sha256(data: &[u8]) -> (r: [u8; 32])
    ensures
        r@ == sha256_of(data@),
{
    let mut hasher = crypto::sha2::Sha256::new();
    hasher.input(data);
    let mut out = [0u8; 32];
    hasher.result(&mut out);
    out
}

/// Relies on `bincode::serialize`: the default fixed-width little-endian
/// encoding, a deterministic, injective function of the value; for `u64` it
/// always succeeds (eight bytes into a fresh vector, no size limit).
#[verifier::external_body]
pub(crate) fn encode_value(v: u64) -> (r: Vec<u8>)
    ensures
        r@ == encoding_of(v),
{
    bincode::serialize(&v).unwrap()
}

} // verus!
