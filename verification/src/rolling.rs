//! Trusted interface to the `rollsum` crate's bup-style rolling hash.
//!
//! The engine is modelled by the byte string fed into it since it was
//! created or last reset; where a boundary falls is left open, only the
//! bounds on the consumed count are stated.

use vstd::prelude::*;

verus! {

#[verifier::external_type_specification]
#[verifier::external_body]
pub struct ExBup(rollsum::Bup);

/// The bytes fed into the rolling-hash engine since it was created or last reset.
pub uninterp spec fn bup_fed(b: rollsum::Bup) -> Seq<u8>;

/// Where the rolling hash declares the next boundary: how many bytes of
/// `buf` an engine already fed `fed` consumes before the boundary, or None
/// when it consumes all of `buf` without one. A function of the bytes alone,
/// the same on every machine.
pub uninterp spec fn bup_edge_of(fed: Seq<u8>, buf: Seq<u8>) -> Option<int>;

/// Relies on rollsum::Bup::new: a fresh engine with nothing fed.
#[verifier::external_body]
pub(crate) fn bup_new() -> (r: rollsum::Bup)
    ensures
        bup_fed(r) == Seq::<u8>::empty(),
{
    rollsum::Bup::new()
}

/// Relies on rollsum::Bup::find_chunk_edge: feeds bytes from `buf` until the
/// rolling hash marks a boundary. On a boundary it returns how many bytes of
/// `buf` were consumed (at least one, at most all) and resets itself; with no
/// boundary it consumes all of `buf` and returns None.
#[verifier::external_body]
pub(crate) fn bup_find_chunk_edge(b: &mut rollsum::Bup, buf: &[u8]) -> (r: Option<usize>)
    ensures
        match r {
            Some(c) => 1 <= c && c <= buf@.len() && bup_fed(*final(b)) == Seq::<u8>::empty()
                && bup_edge_of(bup_fed(*old(b)), buf@) == Some(c as int),
            None => bup_fed(*final(b)) == bup_fed(*old(b)) + buf@ && bup_edge_of(
                bup_fed(*old(b)),
                buf@,
            ) is None,
        },
{
    b.find_chunk_edge(buf).map(|e| e.0)
}

} // verus!
