//! Trusted interface to sodiumoxide's `crypto::box_` public-key
//! authenticated encryption, over plain byte strings.
//!
//! `box_pk_of` names the public key that belongs to a secret key (curve25519
//! scalar multiplication of the base point), and `box_open_of` names the
//! outcome of opening a ciphertext; both are functions of their arguments
//! alone. Key generation is random, so nothing more is stated of it than the
//! lengths and the key correspondence.

use vstd::prelude::*;

verus! {

/// The public key belonging to a curve25519 secret key.
pub uninterp spec fn box_pk_of(sk: Seq<u8>) -> Seq<u8>;

/// What box_::open returns for a ciphertext, nonce, sender public key and
/// recipient secret key: the plaintext, or None on authentication failure.
pub uninterp spec fn box_open_of(c: Seq<u8>, n: Seq<u8>, pk: Seq<u8>, sk: Seq<u8>) -> Option<
    Seq<u8>,
>;

/// Relies on sodiumoxide box_::gen_keypair: a freshly generated random
/// keypair `(public, secret)`, 32 bytes each, the public key determined by
/// the secret key.
#[verifier::external_body]
pub(crate) fn box_gen_keypair() -> (r: (Vec<u8>, Vec<u8>))
    ensures
        r.0@.len() == 32,
        r.1@.len() == 32,
        r.0@ == box_pk_of(r.1@),
{
    let (pk, sk) = sodiumoxide::crypto::box_::gen_keypair();
    (pk.0.to_vec(), sk.0.to_vec())
}

/// Relies on sodiumoxide box_::seal: authenticated encryption of `m` with
/// nonce `n` for the recipient `pk` from the sender `sk`; the ciphertext is
/// 16 bytes longer than the plaintext, and box_::open inverts it under any
/// secret key that `pk` belongs to.
#[verifier::external_body]
pub(crate) fn box_seal(m: &[u8], n: &[u8], pk: &[u8], sk: &[u8]) -> (r: Vec<u8>)
    requires
        n@.len() == 24,
        pk@.len() == 32,
        sk@.len() == 32,
    ensures
        r@.len() == m@.len() + 16,
        forall|rsk: Seq<u8>|
            box_pk_of(rsk) == pk@ ==> box_open_of(r@, n@, box_pk_of(sk@), rsk) == Some(m@),
{
    let n = sodiumoxide::crypto::box_::Nonce::from_slice(n).unwrap();
    let pk = sodiumoxide::crypto::box_::PublicKey::from_slice(pk).unwrap();
    let sk = sodiumoxide::crypto::box_::SecretKey::from_slice(sk).unwrap();
    sodiumoxide::crypto::box_::seal(m, &n, &pk, &sk)
}

/// Relies on sodiumoxide box_::open: verifies and decrypts a ciphertext with
/// the sender's public key and the recipient's secret key; returns None when
/// verification fails. The outcome is a function of the arguments alone.
#[verifier::external_body]
pub(crate) fn box_open(c: &[u8], n: &[u8], pk: &[u8], sk: &[u8]) -> (r: Option<Vec<u8>>)
    requires
        n@.len() == 24,
        pk@.len() == 32,
        sk@.len() == 32,
    ensures
        match r {
            Some(m) => box_open_of(c@, n@, pk@, sk@) == Some(m@),
            None => box_open_of(c@, n@, pk@, sk@) is None,
        },
{
    let n = sodiumoxide::crypto::box_::Nonce::from_slice(n).unwrap();
    let pk = sodiumoxide::crypto::box_::PublicKey::from_slice(pk).unwrap();
    let sk = sodiumoxide::crypto::box_::SecretKey::from_slice(sk).unwrap();
    match sodiumoxide::crypto::box_::open(c, &n, &pk, &sk) {
        Ok(m) => Some(m),
        Err(()) => None,
    }
}

} // verus!
