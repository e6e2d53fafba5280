//! Trusted interface to the SHA-256 hasher of the `crypto` crate.
//!
//! The hasher is modelled by the byte string fed into it since it was
//! created or last reset; the digest of a byte string is named by the
//! uninterpreted function `sha256_of`.

use vstd::prelude::*;

verus! {

#[verifier::external_type_specification]
#[verifier::external_body]
pub struct ExSha256(crypto::sha2::Sha256);

/// The bytes fed into the hasher since it was created or last reset.
pub uninterp spec fn sha_fed(h: crypto::sha2::Sha256) -> Seq<u8>;

/// The hasher accepts input: it is fresh, or reset since its last `result`.
/// Feeding a finished hasher asserts inside the crate, so the wrappers keep
/// this state explicit.
pub uninterp spec fn sha_ready(h: crypto::sha2::Sha256) -> bool;

/// The SHA-256 digest (32 bytes) of a byte string; a function of the bytes alone.
pub uninterp spec fn sha256_of(bytes: Seq<u8>) -> Seq<u8>;

/// Relies on crypto::sha2::Sha256::new: a fresh hasher with nothing fed.
#[verifier::external_body]
pub(crate) fn sha_new() -> (r: crypto::sha2::Sha256)
    ensures
        sha_fed(r) == Seq::<u8>::empty(),
        sha_ready(r),
{
    crypto::sha2::Sha256::new()
}

/// Relies on Digest::input for Sha256: appends `buf` to the fed bytes. The
/// hasher must not have been finished by `result`, or the crate asserts.
#[verifier::external_body]
pub(crate) fn sha_input(h: &mut crypto::sha2::Sha256, buf: &[u8])
    requires
        sha_ready(*old(h)),
    ensures
        sha_fed(*final(h)) == sha_fed(*old(h)) + buf@,
        sha_ready(*final(h)),
{
    crypto::digest::Digest::input(h, buf)
}

/// Relies on Digest::result for Sha256: writes the 32-byte SHA-256 digest of
/// the fed bytes. The hasher must be reset before any further input.
#[verifier::external_body]
pub(crate) fn sha_result(h: &mut crypto::sha2::Sha256) -> (r: Vec<u8>)
    requires
        sha_ready(*old(h)),
    ensures
        r@ == sha256_of(sha_fed(*old(h))),
        r@.len() == 32,
{
    let mut out = vec![0u8; 32];
    crypto::digest::Digest::result(h, &mut out);
    out
}

/// Relies on Digest::reset for Sha256: clears the fed bytes.
#[verifier::external_body]
pub(crate) fn sha_reset(h: &mut crypto::sha2::Sha256)
    ensures
        sha_fed(*final(h)) == Seq::<u8>::empty(),
        sha_ready(*final(h)),
{
    crypto::digest::Digest::reset(h)
}

} // verus!
