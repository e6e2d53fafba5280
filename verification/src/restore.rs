//! The restore walker: resolve a root digest back into the stream it was
//! stored from. A digest is classified by probing the index kind first, then
//! the data kind; an index chunk's plaintext is walked as 32-byte child
//! digests, depth first and left to right, so the stream comes back in
//! store order.

use vstd::prelude::*;

use crate::boxcrypt::box_pk_of;
use crate::repo::{
    decrypt_chunk, spec_decrypt, stores_plain, ChunkType, LoadError, Repo,
};
use crate::store::{digest_at, level_stored};

verus! {

/// How deep a restore may recurse: enough for the deepest tree a store can
/// build (its level cap, plus the capped-index chunk and the data level),
/// and the fan-out makes even a tenth of it unreachable for real streams.
pub const RESTORE_DEPTH: u64 = 66;

/// What restoring a digest from the repository maps yields: the restore is a
/// pure function of the two object maps, the digest and the secret key. An
/// empty digest is the root of the empty stream.
pub open spec fn restore_spec(
    ixm: Map<Seq<u8>, Seq<u8>>,
    dtm: Map<Seq<u8>, Seq<u8>>,
    d: Seq<u8>,
    sk: Seq<u8>,
    fuel: nat,
) -> Result<Seq<u8>, LoadError>
    decreases fuel, 0int, 0int,
{
    if d.len() == 0 {
        Ok(Seq::empty())
    } else if fuel == 0 {
        Err(LoadError::TooDeep)
    } else if ixm.contains_key(d) {
        match spec_decrypt(ixm[d], d, sk) {
            None => Err(LoadError::CryptoFailure),
            Some(pt) => if pt.len() > 0 && pt.len() % 32 == 0 {
                restore_children(ixm, dtm, pt, 0, sk, (fuel - 1) as nat)
            } else {
                Err(LoadError::MalformedIndex)
            },
        }
    } else if dtm.contains_key(d) {
        match spec_decrypt(dtm[d], d, sk) {
            None => Err(LoadError::CryptoFailure),
            Some(pt) => Ok(pt),
        }
    } else {
        Err(LoadError::NotFound)
    }
}

/// Restore children `i` and on of an index plaintext, concatenated in order;
/// the first failure wins.
pub open spec fn restore_children(
    ixm: Map<Seq<u8>, Seq<u8>>,
    dtm: Map<Seq<u8>, Seq<u8>>,
    pt: Seq<u8>,
    i: int,
    sk: Seq<u8>,
    fuel: nat,
) -> Result<Seq<u8>, LoadError>
    decreases fuel, 1int, pt.len() - 32 * i,
{
    if i < 0 || 32 * i + 32 > pt.len() {
        Ok(Seq::empty())
    } else {
        match restore_spec(ixm, dtm, pt.subrange(32 * i, 32 * i + 32), sk, fuel) {
            Err(e) => Err(e),
            Ok(c) => match restore_children(ixm, dtm, pt, i + 1, sk, fuel) {
                Err(e) => Err(e),
                Ok(s) => Ok(c + s),
            },
        }
    }
}

/// Restore the object behind one digest, appending its stream to `out`.
fn restore_data_recursive(
    repo: &Repo,
    digest: &[u8],
    sec_key: &Vec<u8>,
    fuel: u64,
    out: &mut Vec<u8>,
) -> (r: Result<(), LoadError>)
    requires
        repo.wf(),
        sec_key@.len() == 32,
    ensures
        ({
            let rs = restore_spec(
                repo.index_map(),
                repo.data_map(),
                digest@,
                sec_key@,
                fuel as nat,
            );
            match r {
                Ok(_) => {
                    &&& final(out)@.len() >= old(out)@.len()
                    &&& final(out)@.take(old(out)@.len() as int) == old(out)@
                    &&& rs == Ok::<Seq<u8>, LoadError>(
                        final(out)@.skip(old(out)@.len() as int),
                    )
                },
                Err(e) => rs == Err::<Seq<u8>, LoadError>(e),
            }
        }),
    decreases fuel,
{
    let ghost ixm = repo.index_map();
    let ghost dtm = repo.data_map();
    let ghost base = out@.len() as int;
    if digest.len() == 0 {
        proof {
            assert(out@.take(base) =~= out@);
            assert(out@.skip(base) =~= Seq::<u8>::empty());
        }
        return Ok(());
    }
    if fuel == 0 {
        return Err(LoadError::TooDeep);
    }
    match repo.get_object(digest, ChunkType::Index) {
        Some(obj) => {
            match decrypt_chunk(obj.as_slice(), digest, sec_key.as_slice()) {
                None => Err(LoadError::CryptoFailure),
                Some(pt) => {
                    if pt.len() == 0 || pt.len() % 32 != 0 {
                        return Err(LoadError::MalformedIndex);
                    }
                    let ghost f1 = (fuel - 1) as nat;
                    let n = pt.len() / 32;
                    proof {
                        assert(pt@.len() == pt.len() as int);
                        assert(32 * n as int == pt@.len());
                    }
                    let mut k: usize = 0;
                    while k < n
                        invariant
                            repo.wf(),
                            sec_key@.len() == 32,
                            ixm == repo.index_map(),
                            dtm == repo.data_map(),
                            k <= n,
                            32 * n as int == pt@.len(),
                            pt@.len() <= usize::MAX as int,
                            fuel >= 1,
                            f1 == (fuel - 1) as nat,
                            digest@.len() > 0,
                            ixm.contains_key(digest@),
                            spec_decrypt(ixm[digest@], digest@, sec_key@) == Some(pt@),
                            pt@.len() > 0 && pt@.len() % 32 == 0,
                            out@.len() >= base,
                            0 <= base,
                            out@.take(base) == old(out)@,
                            ({
                                let full = restore_children(ixm, dtm, pt@, 0, sec_key@, f1);
                                match restore_children(ixm, dtm, pt@, k as int, sec_key@, f1) {
                                    Ok(s) => full == Ok::<Seq<u8>, LoadError>(out@.skip(base) + s),
                                    Err(e) => full == Err::<Seq<u8>, LoadError>(e),
                                }
                            }),
                        decreases n - k,
                    {
                        let ghost out_pre = out@;
                        proof {
                            assert(32 * (k as int) + 32 <= 32 * (n as int));
                        }
                        let child = vstd::slice::slice_subrange(
                            pt.as_slice(),
                            32 * k,
                            32 * k + 32,
                        );
                        proof {
                            assert(child@ == pt@.subrange(32 * k as int, 32 * k as int + 32));
                        }
                        let ghost child_spec = restore_spec(ixm, dtm, child@, sec_key@, f1);
                        match restore_data_recursive(repo, child, sec_key, fuel - 1, out) {
                            Ok(()) => {},
                            Err(e) => {
                                proof {
                                    assert(child_spec == Err::<Seq<u8>, LoadError>(e));
                                    assert(restore_children(ixm, dtm, pt@, k as int, sec_key@, f1)
                                        == Err::<Seq<u8>, LoadError>(e));
                                    assert(restore_spec(ixm, dtm, digest@, sec_key@, fuel as nat)
                                        == restore_children(ixm, dtm, pt@, 0, sec_key@, f1)) by {
                                        assert(spec_decrypt(ixm[digest@], digest@, sec_key@)
                                            == Some(pt@));
                                    }
                                }
                                return Err(e);
                            },
                        }
                        proof {
                            let c = out@.skip(out_pre.len() as int);
                            assert(out@.take(out_pre.len() as int) == out_pre);
                            assert(out@.take(base) =~= out_pre.take(base));
                            assert(out@.skip(base) =~= out_pre.skip(base) + c);
                            assert(child_spec == Ok::<Seq<u8>, LoadError>(c));
                            match restore_children(ixm, dtm, pt@, k + 1, sec_key@, f1) {
                                Ok(s) => {
                                    assert(restore_children(ixm, dtm, pt@, k as int, sec_key@, f1)
                                        == Ok::<Seq<u8>, LoadError>(c + s));
                                    assert(out_pre.skip(base) + (c + s) =~= out@.skip(base) + s);
                                },
                                Err(e) => {
                                    assert(restore_children(ixm, dtm, pt@, k as int, sec_key@, f1)
                                        == Err::<Seq<u8>, LoadError>(e));
                                },
                            }
                        }
                        k = k + 1;
                    }
                    proof {
                        assert(restore_children(ixm, dtm, pt@, n as int, sec_key@, f1)
                            == Ok::<Seq<u8>, LoadError>(Seq::<u8>::empty()));
                        assert(out@.skip(base) + Seq::<u8>::empty() =~= out@.skip(base));
                        assert(spec_decrypt(ixm[digest@], digest@, sec_key@) == Some(pt@));
                    }
                    Ok(())
                },
            }
        },
        None => {
            match repo.get_object(digest, ChunkType::Data) {
                Some(obj) => {
                    match decrypt_chunk(obj.as_slice(), digest, sec_key.as_slice()) {
                        None => Err(LoadError::CryptoFailure),
                        Some(mut pt) => {
                            let ghost ptv = pt@;
                            out.append(&mut pt);
                            proof {
                                assert(out@.take(base) =~= old(out)@);
                                assert(out@.skip(base) =~= ptv);
                            }
                            Ok(())
                        },
                    }
                },
                None => Err(LoadError::NotFound),
            }
        },
    }
}

/// Restore the stream behind a root digest: a pure function of the
/// repository's contents, the digest and the secret key, as the contract
/// states.
pub fn restore_data(repo: &Repo, digest: &[u8], sec_key: &Vec<u8>) -> (r: Result<
    Vec<u8>,
    LoadError,
>)
    requires
        repo.wf(),
        sec_key@.len() == 32,
    ensures
        ({
            let rs = restore_spec(
                repo.index_map(),
                repo.data_map(),
                digest@,
                sec_key@,
                RESTORE_DEPTH as nat,
            );
            match r {
                Ok(v) => rs == Ok::<Seq<u8>, LoadError>(v@),
                Err(e) => rs == Err::<Seq<u8>, LoadError>(e),
            }
        }),
{
    let mut out: Vec<u8> = Vec::new();
    match restore_data_recursive(repo, digest, sec_key, RESTORE_DEPTH, &mut out) {
        Ok(()) => {
            proof {
                assert(out@.skip(0) =~= out@);
            }
            Ok(out)
        },
        Err(e) => Err(e),
    }
}

/// The empty root restores to the empty stream.
pub proof fn lemma_restore_empty_root(
    ixm: Map<Seq<u8>, Seq<u8>>,
    dtm: Map<Seq<u8>, Seq<u8>>,
    sk: Seq<u8>,
    fuel: nat,
)
    ensures
        restore_spec(ixm, dtm, Seq::<u8>::empty(), sk, fuel) == Ok::<Seq<u8>, LoadError>(
            Seq::<u8>::empty(),
        ),
{
}

/// A nonempty digest stored under neither kind restores to "object not
/// found".
pub proof fn lemma_restore_not_found(
    ixm: Map<Seq<u8>, Seq<u8>>,
    dtm: Map<Seq<u8>, Seq<u8>>,
    d: Seq<u8>,
    sk: Seq<u8>,
    fuel: nat,
)
    requires
        d.len() > 0,
        fuel > 0,
        !ixm.contains_key(d),
        !dtm.contains_key(d),
    ensures
        restore_spec(ixm, dtm, d, sk, fuel) == Err::<Seq<u8>, LoadError>(LoadError::NotFound),
{
}

/// Round trip for a stream that was stored as a single fresh data chunk:
/// restoring the root digest yields exactly the stored stream, under any
/// secret key that the repository public key belongs to, provided no index
/// chunk shadows the root digest.
pub proof fn lemma_round_trip_single_chunk(
    m0: Map<Seq<u8>, Seq<u8>>,
    m1: Map<Seq<u8>, Seq<u8>>,
    ixm: Map<Seq<u8>, Seq<u8>>,
    pk: Seq<u8>,
    sk: Seq<u8>,
    data: Seq<u8>,
    root: Seq<u8>,
    pieces: Seq<Seq<u8>>,
    fuel: nat,
)
    requires
        level_stored(m0, m1, pk, data, root, pieces),
        pieces.len() == 1,
        !m0.contains_key(root),
        !ixm.contains_key(root),
        box_pk_of(sk) == pk,
        data.len() > 0,
        fuel >= 1,
    ensures
        restore_spec(ixm, m1, root, sk, fuel) == Ok::<Seq<u8>, LoadError>(data),
{
    assert(digest_at(root, 0) =~= root);
    assert(crate::store::concat_all(pieces) == crate::store::concat_all(pieces.drop_last())
        + pieces.last());
    assert(pieces.drop_last().len() == 0);
    assert(Seq::<u8>::empty() + pieces.last() =~= pieces.last());
    assert(pieces[0] == data);
    assert(stores_plain(m1[root], root, pk, pieces[0]));
    crate::repo::lemma_seal_open(m1[root], root, pk, pieces[0], sk);
    assert(m1.contains_key(root));
    assert(root.len() == 32);
}

/// Concatenation decomposes at the front.
proof fn lemma_concat_all_first(ps: Seq<Seq<u8>>)
    requires
        ps.len() > 0,
    ensures
        crate::store::concat_all(ps) == ps.first() + crate::store::concat_all(ps.drop_first()),
    decreases ps.len(),
{
    if ps.len() == 1 {
        assert(ps.drop_first().len() == 0);
        assert(crate::store::concat_all(ps) == crate::store::concat_all(ps.drop_last())
            + ps.last());
        assert(Seq::<u8>::empty() + ps.last() =~= ps.last());
        assert(ps.first() + Seq::<u8>::empty() =~= ps.first());
    } else {
        lemma_concat_all_first(ps.drop_last());
        assert(ps.drop_last().first() == ps.first());
        assert(ps.drop_last().drop_first() =~= ps.drop_first().drop_last());
        assert(crate::store::concat_all(ps.drop_first()) == crate::store::concat_all(
            ps.drop_first().drop_last(),
        ) + ps.drop_first().last());
        assert(ps.drop_first().last() == ps.last());
        assert((ps.first() + crate::store::concat_all(ps.drop_first().drop_last())) + ps.last()
            =~= ps.first() + (crate::store::concat_all(ps.drop_first().drop_last()) + ps.last()));
    }
}

/// Walking the children of an index plaintext from position `i` yields the
/// concatenation of the plaintexts its remaining child digests decrypt to.
proof fn lemma_children_concat(
    ixm: Map<Seq<u8>, Seq<u8>>,
    dtm: Map<Seq<u8>, Seq<u8>>,
    ix: Seq<u8>,
    pieces: Seq<Seq<u8>>,
    i: int,
    sk: Seq<u8>,
    fuel: nat,
)
    requires
        fuel >= 1,
        ix.len() == 32 * pieces.len(),
        0 <= i <= pieces.len(),
        forall|j: int| 0 <= j < pieces.len() ==> !ixm.contains_key(#[trigger] digest_at(ix, j)),
        forall|j: int| 0 <= j < pieces.len() ==> dtm.contains_key(#[trigger] digest_at(ix, j)),
        forall|j: int|
            0 <= j < pieces.len() ==> spec_decrypt(dtm[digest_at(ix, j)], digest_at(ix, j), sk)
                == Some(#[trigger] pieces[j]),
    ensures
        restore_children(ixm, dtm, ix, i, sk, fuel) == Ok::<Seq<u8>, LoadError>(
            crate::store::concat_all(pieces.skip(i)),
        ),
    decreases pieces.len() - i,
{
    if i == pieces.len() {
        assert(32 * i + 32 > ix.len());
        assert(pieces.skip(i).len() == 0);
    } else {
        let d = digest_at(ix, i);
        assert(ix.subrange(32 * i, 32 * i + 32) == d);
        assert(d.len() == 32);
        assert(restore_spec(ixm, dtm, d, sk, fuel) == Ok::<Seq<u8>, LoadError>(pieces[i]));
        lemma_children_concat(ixm, dtm, ix, pieces, i + 1, sk, fuel);
        lemma_concat_all_first(pieces.skip(i));
        assert(pieces.skip(i).first() == pieces[i]);
        assert(pieces.skip(i).drop_first() =~= pieces.skip(i + 1));
    }
}

/// Round trip across one index level: a root index chunk whose children all
/// decrypt as data chunks restores to the concatenation of the children's
/// plaintexts, in store order.
pub proof fn lemma_round_trip_index_level(
    ixm: Map<Seq<u8>, Seq<u8>>,
    dtm: Map<Seq<u8>, Seq<u8>>,
    root: Seq<u8>,
    ix: Seq<u8>,
    pieces: Seq<Seq<u8>>,
    data: Seq<u8>,
    sk: Seq<u8>,
    fuel: nat,
)
    requires
        fuel >= 2,
        root.len() == 32,
        ixm.contains_key(root),
        spec_decrypt(ixm[root], root, sk) == Some(ix),
        ix.len() == 32 * pieces.len(),
        pieces.len() > 0,
        forall|j: int| 0 <= j < pieces.len() ==> !ixm.contains_key(#[trigger] digest_at(ix, j)),
        forall|j: int| 0 <= j < pieces.len() ==> dtm.contains_key(#[trigger] digest_at(ix, j)),
        forall|j: int|
            0 <= j < pieces.len() ==> spec_decrypt(dtm[digest_at(ix, j)], digest_at(ix, j), sk)
                == Some(#[trigger] pieces[j]),
        crate::store::concat_all(pieces) == data,
    ensures
        restore_spec(ixm, dtm, root, sk, fuel) == Ok::<Seq<u8>, LoadError>(data),
{
    assert(ix.len() > 0);
    assert(ix.len() % 32 == 0);
    lemma_children_concat(ixm, dtm, ix, pieces, 0, sk, (fuel - 1) as nat);
    assert(pieces.skip(0) =~= pieces);
    assert(restore_spec(ixm, dtm, root, sk, fuel) == restore_children(
        ixm,
        dtm,
        ix,
        0,
        sk,
        (fuel - 1) as nat,
    ));
}

} // verus!
