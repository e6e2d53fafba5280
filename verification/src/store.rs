//! The store pipeline: cut a stream into content-defined chunks, store each
//! unique chunk under its digest, gather the digests into an index byte
//! string, and store index levels recursively until one fits in a single
//! digest, whose value is the root.

use vstd::prelude::*;

use crate::chunker::{
    concat_pieces, cuts, cuts_upto, edge_bounds, edges_view, lemma_chunker_completeness, piece,
    Chunker,
};
use crate::repo::{obj_good, stores_plain, ChunkType, Repo};
use crate::rolling::{bup_fed, bup_find_chunk_edge, bup_new};
use crate::sha::{sha256_of, sha_fed, sha_input, sha_new, sha_ready, sha_reset, sha_result};
use crate::writer::{writer_edges_ok, ChunkWriter};

verus! {

/// Child digest `i` of an index byte string: bytes `32 i .. 32 i + 32`.
pub open spec fn digest_at(ix: Seq<u8>, i: int) -> Seq<u8> {
    ix.subrange(32 * i, 32 * i + 32)
}

/// All the given byte strings, concatenated in order.
pub open spec fn concat_all(ps: Seq<Seq<u8>>) -> Seq<u8>
    decreases ps.len(),
{
    if ps.len() == 0 {
        Seq::empty()
    } else {
        concat_all(ps.drop_last()) + ps.last()
    }
}

/// The digests of a cut's edges, concatenated in order.
#[verifier::opaque]
pub open spec fn digests_seq(es: Seq<(int, Seq<u8>)>) -> Seq<u8>
    decreases es.len(),
{
    if es.len() == 0 {
        Seq::empty()
    } else {
        digests_seq(es.drop_last()) + es.last().1
    }
}

/// The digest string that chunking a stream from a fresh chunker produces:
/// the digests of the hash-dictated cut, then the digest of the final tail,
/// if any. A function of the stream alone.
pub open spec fn stream_index(data: Seq<u8>) -> Seq<u8> {
    let cut = crate::chunker::hash_cut(Seq::<u8>::empty(), data);
    if cut.1.len() == 0 {
        digests_seq(cut.0)
    } else {
        digests_seq(cut.0) + sha256_of(cut.1)
    }
}

/// The digest string of an index level cut only at digest boundaries: 32-byte
/// records are taken in turn, a chunk closes after any record in which the
/// rolling hash finds a boundary, and at the end of the level. A function of
/// the level bytes alone.
#[verifier::opaque]
pub open spec fn aligned_digests(tail: Seq<u8>, rest: Seq<u8>) -> Seq<u8>
    decreases rest.len(),
{
    if rest.len() < 32 {
        if tail.len() == 0 {
            Seq::empty()
        } else {
            sha256_of(tail)
        }
    } else {
        let rec = rest.take(32);
        if crate::rolling::bup_edge_of(tail, rec) is Some || rest.len() == 32 {
            sha256_of(tail + rec) + aligned_digests(Seq::<u8>::empty(), rest.skip(32))
        } else {
            aligned_digests(tail + rec, rest.skip(32))
        }
    }
}

/// The digest string of a whole index level.
pub open spec fn index_level_digests(data: Seq<u8>) -> Seq<u8> {
    aligned_digests(Seq::<u8>::empty(), data)
}

/// The root digest that storing `ix` as successive index levels yields, with
/// `budget` levels before the cap files the remainder as one chunk.
#[verifier::opaque]
pub open spec fn root_of_levels(ix: Seq<u8>, budget: int) -> Seq<u8>
    decreases budget,
{
    if ix.len() <= 32 {
        ix
    } else if budget <= 0 {
        sha256_of(ix)
    } else {
        root_of_levels(index_level_digests(ix), budget - 1)
    }
}

/// The root digest a store of `data` returns: a pure function of the stream
/// and the kind of its first level, so saving the same stream twice returns
/// the same root.
pub open spec fn store_root(data: Seq<u8>, kind: ChunkType) -> Seq<u8> {
    let ix0 = match kind {
        ChunkType::Data => stream_index(data),
        ChunkType::Index => if data.len() % 32 == 0 {
            index_level_digests(data)
        } else {
            stream_index(data)
        },
    };
    root_of_levels(ix0, MAX_INDEX_LEVELS as int)
}

/// A stream in which the rolling hash finds no boundary is stored whole and
/// rooted at its own digest.
pub proof fn lemma_single_chunk_root(data: Seq<u8>)
    requires
        data.len() > 0,
        crate::rolling::bup_edge_of(Seq::<u8>::empty(), data) is None,
        sha256_of(data).len() == 32,
    ensures
        store_root(data, ChunkType::Data) == sha256_of(data),
{
    reveal(crate::chunker::hash_cut);
    reveal(digests_seq);
    reveal(root_of_levels);
    let cut = crate::chunker::hash_cut(Seq::<u8>::empty(), data);
    assert(cut.1 == Seq::<u8>::empty() + data);
    assert(Seq::<u8>::empty() + data =~= data);
    assert(stream_index(data) =~= sha256_of(data));
}

/// Storing one stream level cut the stream `data` into the nonempty chunks
/// `pieces`, made `ix` the concatenation of their SHA-256 digests in order,
/// and grew the kind's object map from `m0` to `m1` by exactly those
/// digests, inserting only where a digest was absent and never replacing an
/// object. Every freshly inserted object is good for its digest; when the
/// level was a single chunk, its object seals that chunk.
pub open spec fn level_stored(
    m0: Map<Seq<u8>, Seq<u8>>,
    m1: Map<Seq<u8>, Seq<u8>>,
    pk: Seq<u8>,
    data: Seq<u8>,
    ix: Seq<u8>,
    pieces: Seq<Seq<u8>>,
) -> bool {
    &&& ix.len() == 32 * pieces.len()
    &&& concat_all(pieces) == data
    &&& forall|i: int| 0 <= i < pieces.len() ==> (#[trigger] pieces[i]).len() > 0
    &&& forall|i: int|
        0 <= i < pieces.len() ==> digest_at(ix, i) == sha256_of(#[trigger] pieces[i])
    &&& forall|k: Seq<u8>| #[trigger] m0.contains_key(k) ==> m1.contains_key(k) && m1[k] == m0[k]
    &&& forall|k: Seq<u8>| #[trigger]
        m1.contains_key(k) ==> m0.contains_key(k) || exists|i: int|
            0 <= i < pieces.len() && k == digest_at(ix, i)
    &&& forall|i: int| 0 <= i < pieces.len() ==> m1.contains_key(#[trigger] digest_at(ix, i))
    &&& forall|i: int|
        0 <= i < pieces.len() && !m0.contains_key(#[trigger] digest_at(ix, i)) ==> obj_good(
            m1[digest_at(ix, i)],
            digest_at(ix, i),
            pk,
        )
    &&& (pieces.len() == 1 && !m0.contains_key(digest_at(ix, 0)) ==> stores_plain(
        m1[digest_at(ix, 0)],
        digest_at(ix, 0),
        pk,
        pieces[0],
    ))
}

/// Chunk plaintexts that each equal their delimited piece concatenate to the
/// pieces' concatenation.
proof fn lemma_concat_matches(tail0: Seq<u8>, buf: Seq<u8>, es: Seq<(int, Seq<u8>)>, ps: Seq<Seq<u8>>)
    requires
        ps.len() == es.len(),
        forall|i: int| 0 <= i < ps.len() ==> #[trigger] ps[i] == piece(tail0, buf, es, i),
    ensures
        concat_all(ps) == concat_pieces(tail0, buf, es),
    decreases ps.len(),
{
    if ps.len() > 0 {
        assert(forall|i: int|
            0 <= i < ps.drop_last().len() ==> #[trigger] ps.drop_last()[i] == ps[i]);
        assert(forall|i: int|
            0 <= i < es.drop_last().len() ==> #[trigger] es.drop_last()[i] == es[i]);
        assert(forall|i: int|
            0 <= i < ps.drop_last().len() ==> #[trigger] ps.drop_last()[i] == piece(
                tail0,
                buf,
                es.drop_last(),
                i,
            )) by {
            assert(forall|i: int|
                0 <= i < es.drop_last().len() ==> piece(tail0, buf, es.drop_last(), i) == piece(
                    tail0,
                    buf,
                    es,
                    i,
                ));
        }
        lemma_concat_matches(tail0, buf, es.drop_last(), ps.drop_last());
        assert(ps.last() == piece(tail0, buf, es, es.len() - 1));
    }
}

/// Appending 32 bytes to an index byte string leaves the earlier child
/// digests in place.
proof fn lemma_digest_at_append(ix: Seq<u8>, d: Seq<u8>, n: int)
    requires
        ix.len() == 32 * n,
        d.len() == 32,
        0 <= n,
    ensures
        forall|i: int| 0 <= i < n ==> digest_at(ix + d, i) == digest_at(ix, i),
        digest_at(ix + d, n) == d,
{
    assert forall|i: int| 0 <= i < n implies digest_at(ix + d, i) == digest_at(ix, i) by {
        assert(digest_at(ix + d, i) =~= digest_at(ix, i));
    }
    assert(digest_at(ix + d, n) =~= d);
}

/// Store one level of a stream: chunk `data`, store every chunk under its
/// digest and kind, and return the concatenation of the chunk digests in
/// order. Empty input stores nothing and returns an empty index.
#[verifier::rlimit(100)]
#[verifier::loop_isolation(true)]
pub fn store_level(repo: &mut Repo, data: &[u8], kind: ChunkType) -> (ix: Vec<u8>)
    requires
        old(repo).wf(),
    ensures
        final(repo).wf(),
        final(repo).pk() == old(repo).pk(),
        ix@.len() % 32 == 0,
        (data@.len() == 0) == (ix@.len() == 0),
        ix@ == stream_index(data@),
        exists|pieces: Seq<Seq<u8>>|
            level_stored(
                old(repo).kind_map(kind),
                final(repo).kind_map(kind),
                old(repo).pk(),
                data@,
                ix@,
                pieces,
            ),
        match kind {
            ChunkType::Data => final(repo).index_map() == old(repo).index_map(),
            ChunkType::Index => final(repo).data_map() == old(repo).data_map(),
        },
        old(repo).objects_good() ==> final(repo).objects_good(),
{
    let ghost m0 = old(repo).kind_map(kind);
    let ghost pk = old(repo).pk();
    let mut chunker = Chunker::new();
    let mut writer = ChunkWriter::new();
    let mut ix: Vec<u8> = Vec::new();

    let data_len = data.len();
    proof {
        assert(data@.len() == data_len as int);
    }
    let edges = chunker.input(data);
    let ghost es = edges_view(edges@);
    proof {
        assert(es =~= edges_view(edges@).skip(0));
        assert(cuts(Seq::<u8>::empty(), data@, es, chunker.tail()));
        assert(es == crate::chunker::hash_cut(Seq::<u8>::empty(), data@).0);
        assert(chunker.tail() == crate::chunker::hash_cut(Seq::<u8>::empty(), data@).1);
    }
    let chunks = writer.handle_data(data, &edges);
    let ghost tail1 = chunker.tail();
    proof {
        if edges@.len() > 0 {
            assert(writer.pending_bytes() == data@.skip(es[es.len() - 1].0));
            assert(writer.pending_bytes() == tail1);
        } else {
            assert(writer.pending_bytes() =~= tail1);
        }
    }

    let mut ix = store_pieces(repo, &edges, &chunks, kind, Ghost(data@));

    let fin_edges = chunker.finish();
    let ghost fes = edges_view(fin_edges@);
    let empty_buf: Vec<u8> = Vec::new();
    let fin_chunks = writer.handle_data(empty_buf.as_slice(), &fin_edges);
    let ghost mid_map = repo.kind_map(kind);
    let ghost n = chunks@.len() as int;
    let ghost base_pieces = chunks@.map_values(|c: Vec<u8>| c@);
    proof {
        if tail1.len() > 0 {
            assert(fes =~= Seq::<(int, Seq<u8>)>::empty().push((0, sha256_of(tail1))));
            assert(writer_edges_ok(fes, 0));
        } else {
            assert(fes.len() == 0);
        }
        assert(forall|i: int|
            0 <= i < n ==> #[trigger] base_pieces[i] == chunks@[i]@);
        lemma_concat_matches(Seq::<u8>::empty(), data@, es, base_pieces);
        lemma_chunker_completeness(Seq::<u8>::empty(), data@, es, tail1);
        assert(Seq::<u8>::empty() + data@ =~= data@);
    }

    if fin_chunks.len() > 0 {
        let ghost ix0 = ix@;
        let digest = &fin_edges[0].1;
        proof {
            assert(fes[0] == (0int, sha256_of(tail1)));
            assert(digest@ == sha256_of(tail1));
            assert(digest@.len() == 32);
            assert(fin_chunks@[0]@ == piece(tail1, Seq::<u8>::empty(), fes, 0));
            assert(fin_chunks@[0]@ =~= tail1);
        }
        let _added = repo.store_chunk(digest, &fin_chunks[0], kind);
        let mut dcopy = vstd::slice::slice_to_vec(digest.as_slice());
        ix.append(&mut dcopy);
        proof {
            assert(ix@ == stream_index(data@)) by {
                assert(ix@ == digests_seq(es) + sha256_of(tail1));
            }
            lemma_level_finish(
                m0,
                mid_map,
                repo.kind_map(kind),
                pk,
                data@,
                ix0,
                ix@,
                base_pieces,
                tail1,
                digest@,
            );
        }
    } else {
        proof {
            assert(tail1.len() == 0);
            assert(ix@ == stream_index(data@));
            assert(concat_all(base_pieces) + tail1 =~= concat_all(base_pieces));
            lemma_level_no_fin(m0, repo.kind_map(kind), pk, data@, ix@, base_pieces);
        }
    }
    proof {
        if data@.len() == 0 {
            assert(es.len() == 0);
            assert(tail1.len() == 0);
            assert(ix@.len() == 0);
        }
        if data@.len() > 0 && ix@.len() == 0 {
            let pieces = choose|pieces: Seq<Seq<u8>>|
                level_stored(m0, repo.kind_map(kind), pk, data@, ix@, pieces);
            assert(pieces.len() == 0);
            assert(concat_all(pieces) == data@);
            assert(false);
        }
        if old(repo).objects_good() {
            lemma_level_objects_good(*old(repo), *repo, kind, data@, ix@);
        }
    }
    ix
}

/// A level whose stream ended exactly on a boundary is stored as its base
/// pieces alone.
proof fn lemma_level_no_fin(
    m0: Map<Seq<u8>, Seq<u8>>,
    mid: Map<Seq<u8>, Seq<u8>>,
    pk: Seq<u8>,
    data: Seq<u8>,
    ix0: Seq<u8>,
    base_pieces: Seq<Seq<u8>>,
)
    requires
        ix0.len() == 32 * base_pieces.len(),
        forall|i: int|
            0 <= i < base_pieces.len() ==> digest_at(ix0, i) == sha256_of(
                #[trigger] base_pieces[i],
            ),
        forall|i: int| 0 <= i < base_pieces.len() ==> (#[trigger] base_pieces[i]).len() > 0,
        forall|k: Seq<u8>| #[trigger] m0.contains_key(k) ==> mid.contains_key(k) && mid[k] == m0[k],
        forall|k: Seq<u8>| #[trigger]
            mid.contains_key(k) ==> m0.contains_key(k) || exists|i: int|
                0 <= i < base_pieces.len() && k == digest_at(ix0, i),
        forall|i: int|
            0 <= i < base_pieces.len() ==> mid.contains_key(#[trigger] digest_at(ix0, i)),
        forall|i: int|
            0 <= i < base_pieces.len() && !m0.contains_key(#[trigger] digest_at(ix0, i))
                ==> obj_good(mid[digest_at(ix0, i)], digest_at(ix0, i), pk),
        (base_pieces.len() == 1 && !m0.contains_key(digest_at(ix0, 0)) ==> stores_plain(
            mid[digest_at(ix0, 0)],
            digest_at(ix0, 0),
            pk,
            base_pieces[0],
        )),
        concat_all(base_pieces) == data,
    ensures
        level_stored(m0, mid, pk, data, ix0, base_pieces),
{
}

/// Closing a level with its final tail chunk: appending the tail's digest to
/// the index and filing the tail's object extends a stored level by one
/// piece.
proof fn lemma_level_finish(
    m0: Map<Seq<u8>, Seq<u8>>,
    mid: Map<Seq<u8>, Seq<u8>>,
    m2: Map<Seq<u8>, Seq<u8>>,
    pk: Seq<u8>,
    data: Seq<u8>,
    ix0: Seq<u8>,
    ix2: Seq<u8>,
    base_pieces: Seq<Seq<u8>>,
    tail1: Seq<u8>,
    dfin: Seq<u8>,
)
    requires
        ix0.len() == 32 * base_pieces.len(),
        forall|i: int|
            0 <= i < base_pieces.len() ==> digest_at(ix0, i) == sha256_of(
                #[trigger] base_pieces[i],
            ),
        forall|i: int| 0 <= i < base_pieces.len() ==> (#[trigger] base_pieces[i]).len() > 0,
        forall|k: Seq<u8>| #[trigger] m0.contains_key(k) ==> mid.contains_key(k) && mid[k] == m0[k],
        forall|k: Seq<u8>| #[trigger]
            mid.contains_key(k) ==> m0.contains_key(k) || exists|i: int|
                0 <= i < base_pieces.len() && k == digest_at(ix0, i),
        forall|i: int|
            0 <= i < base_pieces.len() ==> mid.contains_key(#[trigger] digest_at(ix0, i)),
        forall|i: int|
            0 <= i < base_pieces.len() && !m0.contains_key(#[trigger] digest_at(ix0, i))
                ==> obj_good(mid[digest_at(ix0, i)], digest_at(ix0, i), pk),
        (base_pieces.len() == 1 && !m0.contains_key(digest_at(ix0, 0)) ==> stores_plain(
            mid[digest_at(ix0, 0)],
            digest_at(ix0, 0),
            pk,
            base_pieces[0],
        )),
        tail1.len() > 0,
        dfin == sha256_of(tail1),
        dfin.len() == 32,
        concat_all(base_pieces) + tail1 == data,
        ix2 == ix0 + dfin,
        !mid.contains_key(dfin) ==> exists|obj: Seq<u8>|
            m2 == mid.insert(dfin, obj) && stores_plain(obj, dfin, pk, tail1),
        mid.contains_key(dfin) ==> m2 == mid,
        m2.contains_key(dfin),
    ensures
        level_stored(m0, m2, pk, data, ix2, base_pieces.push(tail1)),
{
    let n = base_pieces.len() as int;
    lemma_digest_at_append(ix0, dfin, n);
    let pieces = base_pieces.push(tail1);
    assert(concat_all(pieces) == concat_all(base_pieces) + tail1) by {
        assert(pieces.drop_last() =~= base_pieces);
    }
    assert(forall|i: int| 0 <= i < n ==> digest_at(ix2, i) == digest_at(ix0, i));
    assert(forall|i: int| 0 <= i < pieces.len() - 1 ==> #[trigger] pieces[i] == base_pieces[i]);
    assert(forall|i: int|
        0 <= i < pieces.len() ==> digest_at(ix2, i) == sha256_of(#[trigger] pieces[i]));
    assert(forall|i: int| 0 <= i < pieces.len() ==> (#[trigger] pieces[i]).len() > 0);
    if !mid.contains_key(dfin) {
        let obj = choose|obj: Seq<u8>|
            m2 == mid.insert(dfin, obj) && stores_plain(obj, dfin, pk, tail1);
        assert(obj_good(m2[dfin], dfin, pk)) by {
            assert(stores_plain(m2[dfin], dfin, pk, tail1));
        }
    }
    assert forall|k: Seq<u8>| #[trigger] m2.contains_key(k) implies m0.contains_key(k) || exists|
        i: int,
    |
        0 <= i < pieces.len() && k == digest_at(ix2, i) by {
        if !m0.contains_key(k) {
            if mid.contains_key(k) {
                let i = choose|i: int| 0 <= i < n && k == digest_at(ix0, i);
                assert(0 <= i < pieces.len() && k == digest_at(ix2, i));
            } else {
                assert(k == digest_at(ix2, n));
            }
        }
    }
    assert forall|i: int|
        0 <= i < pieces.len() && !m0.contains_key(#[trigger] digest_at(ix2, i)) implies obj_good(
        m2[digest_at(ix2, i)],
        digest_at(ix2, i),
        pk,
    ) by {
        if i < n {
            assert(obj_good(mid[digest_at(ix0, i)], digest_at(ix0, i), pk));
            assert(m2[digest_at(ix2, i)] == mid[digest_at(ix0, i)]) by {
                if !mid.contains_key(dfin) && digest_at(ix0, i) == dfin {
                    assert(mid.contains_key(digest_at(ix0, i)));
                    assert(false);
                }
            }
        } else {
            if mid.contains_key(dfin) {
                let jj = choose|jj: int| 0 <= jj < n && dfin == digest_at(ix0, jj);
                assert(obj_good(mid[digest_at(ix0, jj)], digest_at(ix0, jj), pk));
            }
        }
    }
    if pieces.len() == 1 && !m0.contains_key(digest_at(ix2, 0)) {
        assert(n == 0);
        assert(mid =~= m0);
        assert(stores_plain(m2[digest_at(ix2, 0)], digest_at(ix2, 0), pk, pieces[0]));
    }
}

/// A stored level keeps every object good: preserved objects stay as they
/// were, and fresh ones are good by construction.
proof fn lemma_level_objects_good(r0: Repo, r1: Repo, kind: ChunkType, data: Seq<u8>, ix: Seq<u8>)
    requires
        exists|pieces: Seq<Seq<u8>>|
            level_stored(r0.kind_map(kind), r1.kind_map(kind), r0.pk(), data, ix, pieces),
        match kind {
            ChunkType::Data => r1.index_map() == r0.index_map(),
            ChunkType::Index => r1.data_map() == r0.data_map(),
        },
        r1.pk() == r0.pk(),
        r0.objects_good(),
    ensures
        r1.objects_good(),
{
    let pieces = choose|pieces: Seq<Seq<u8>>|
        level_stored(r0.kind_map(kind), r1.kind_map(kind), r0.pk(), data, ix, pieces);
    let m0 = r0.kind_map(kind);
    let m1 = r1.kind_map(kind);
    assert forall|d: Seq<u8>| #[trigger] m1.contains_key(d) implies obj_good(m1[d], d, r1.pk()) by {
        if m0.contains_key(d) {
            assert(obj_good(m0[d], d, r0.pk()));
        } else {
            let i = choose|i: int| 0 <= i < pieces.len() && d == digest_at(ix, i);
            assert(obj_good(m1[digest_at(ix, i)], digest_at(ix, i), r0.pk()));
        }
    }
}

/// One level of the digest tree as the map `m` holds it: `ix` is the
/// concatenation of the SHA-256 digests of the nonempty chunks `pieces`,
/// which concatenate to `data`, and every digest names an object in `m`.
pub open spec fn pieces_digested(
    m: Map<Seq<u8>, Seq<u8>>,
    data: Seq<u8>,
    ix: Seq<u8>,
    pieces: Seq<Seq<u8>>,
) -> bool {
    &&& ix.len() == 32 * pieces.len()
    &&& concat_all(pieces) == data
    &&& forall|i: int| 0 <= i < pieces.len() ==> (#[trigger] pieces[i]).len() > 0
    &&& forall|i: int|
        0 <= i < pieces.len() ==> digest_at(ix, i) == sha256_of(#[trigger] pieces[i])
    &&& forall|i: int| 0 <= i < pieces.len() ==> m.contains_key(#[trigger] digest_at(ix, i))
}

/// Some cut of `data` into chunks has the digest string `ix`, all stored in
/// `m`.
pub open spec fn level_digested(m: Map<Seq<u8>, Seq<u8>>, data: Seq<u8>, ix: Seq<u8>) -> bool {
    exists|pieces: Seq<Seq<u8>>| pieces_digested(m, data, ix, pieces)
}

/// As `level_digested`, for an index level: the chunks respect digest
/// boundaries, each a positive multiple of 32 bytes long.
pub open spec fn index_level_digested(m: Map<Seq<u8>, Seq<u8>>, data: Seq<u8>, ix: Seq<u8>) -> bool {
    exists|pieces: Seq<Seq<u8>>|
        pieces_digested(m, data, ix, pieces) && (forall|i: int|
            0 <= i < pieces.len() ==> (#[trigger] pieces[i]).len() % 32 == 0)
}

/// The root digest names a stored digest tree over `data`: `chain[0]` holds
/// the digests of the data chunks, every later entry the digests of the
/// aligned chunks of the entry before it, and the root is the last entry,
/// one single digest.
pub open spec fn root_digested(
    ixm: Map<Seq<u8>, Seq<u8>>,
    dtm: Map<Seq<u8>, Seq<u8>>,
    root: Seq<u8>,
    data: Seq<u8>,
    chain: Seq<Seq<u8>>,
) -> bool {
    &&& chain.len() >= 1
    &&& level_digested(dtm, data, chain[0])
    &&& forall|k: int|
        0 <= k < chain.len() - 1 ==> index_level_digested(ixm, #[trigger] chain[k], chain[k + 1])
    &&& chain.last() == root
    &&& root.len() == 32
}

/// A digested level stays digested when the map only grows.
proof fn lemma_level_digested_grow(
    m1: Map<Seq<u8>, Seq<u8>>,
    m2: Map<Seq<u8>, Seq<u8>>,
    data: Seq<u8>,
    ix: Seq<u8>,
)
    requires
        level_digested(m1, data, ix),
        forall|k: Seq<u8>| #[trigger] m1.contains_key(k) ==> m2.contains_key(k),
    ensures
        level_digested(m2, data, ix),
{
    let pieces = choose|pieces: Seq<Seq<u8>>| pieces_digested(m1, data, ix, pieces);
    assert(pieces_digested(m2, data, ix, pieces));
}

/// An aligned digested level stays digested when the map only grows.
proof fn lemma_index_level_digested_grow(
    m1: Map<Seq<u8>, Seq<u8>>,
    m2: Map<Seq<u8>, Seq<u8>>,
    data: Seq<u8>,
    ix: Seq<u8>,
)
    requires
        index_level_digested(m1, data, ix),
        forall|k: Seq<u8>| #[trigger] m1.contains_key(k) ==> m2.contains_key(k),
    ensures
        index_level_digested(m2, data, ix),
{
    let pieces = choose|pieces: Seq<Seq<u8>>|
        pieces_digested(m1, data, ix, pieces) && (forall|i: int|
            0 <= i < pieces.len() ==> (#[trigger] pieces[i]).len() % 32 == 0);
    assert(pieces_digested(m2, data, ix, pieces));
}

/// Store a whole stream and return its root digest: chunk and store the
/// stream, then chunk and store each index level in turn — cut only at
/// digest boundaries — while the index still exceeds one digest. The root is
/// empty exactly for an empty stream, and otherwise a single digest that
/// names a stored digest tree over the stream.
pub fn store_data(repo: &mut Repo, data: &[u8], chunk_type: ChunkType) -> (root: Vec<u8>)
    requires
        old(repo).wf(),
    ensures
        final(repo).wf(),
        final(repo).pk() == old(repo).pk(),
        (data@.len() == 0) == (root@.len() == 0),
        root@.len() == 0 || root@.len() == 32,
        root@ == store_root(data@, chunk_type),
        repo_extends(*old(repo), *final(repo)),
        data@.len() == 0 ==> final(repo).data_map() == old(repo).data_map()
            && final(repo).index_map() == old(repo).index_map(),
        data@.len() > 0 && chunk_type == ChunkType::Data ==> exists|chain: Seq<Seq<u8>>|
            root_digested(final(repo).index_map(), final(repo).data_map(), root@, data@, chain),
        data@.len() > 0 ==> exists|pieces: Seq<Seq<u8>>|
            {
                &&& pieces.len() > 0
                &&& concat_all(pieces) == data@
                &&& forall|i: int| 0 <= i < pieces.len() ==> (#[trigger] pieces[i]).len() > 0
                &&& (pieces.len() == 1 ==> root@ == sha256_of(data@) && level_stored(
                    old(repo).kind_map(chunk_type),
                    final(repo).kind_map(chunk_type),
                    old(repo).pk(),
                    data@,
                    root@,
                    pieces,
                ) && match chunk_type {
                    ChunkType::Data => final(repo).index_map() == old(repo).index_map(),
                    ChunkType::Index => final(repo).data_map() == old(repo).data_map(),
                })
            },
        old(repo).objects_good() ==> final(repo).objects_good(),
{
    let aligned_first = match chunk_type {
        ChunkType::Data => false,
        ChunkType::Index => data.len() % 32 == 0,
    };
    let ix = if aligned_first {
        let ix = store_index_level(repo, data);
        proof {
            let p = choose|p: Seq<Seq<u8>>|
                level_stored(
                    old(repo).index_map(),
                    repo.index_map(),
                    old(repo).pk(),
                    data@,
                    ix@,
                    p,
                ) && (forall|i: int| 0 <= i < p.len() ==> (#[trigger] p[i]).len() % 32 == 0);
            assert(level_stored(
                old(repo).kind_map(chunk_type),
                repo.kind_map(chunk_type),
                old(repo).pk(),
                data@,
                ix@,
                p,
            ));
        }
        ix
    } else {
        store_level(repo, data, chunk_type)
    };
    let ghost ix0v = ix@;
    proof {
        assert(ix0v == match chunk_type {
            ChunkType::Data => stream_index(data@),
            ChunkType::Index => if data@.len() % 32 == 0 {
                index_level_digests(data@)
            } else {
                stream_index(data@)
            },
        });
        assert(store_root(data@, chunk_type) == root_of_levels(ix0v, MAX_INDEX_LEVELS as int));
    }
    let ghost pieces0 = choose|pieces: Seq<Seq<u8>>|
        level_stored(
            old(repo).kind_map(chunk_type),
            repo.kind_map(chunk_type),
            old(repo).pk(),
            data@,
            ix@,
            pieces,
        );
    let ghost mut chain: Seq<Seq<u8>> = seq![ix@];
    proof {
        if data@.len() == 0 {
            lemma_level_maps_equal(
                old(repo).kind_map(chunk_type),
                repo.kind_map(chunk_type),
                old(repo).pk(),
                data@,
                ix@,
                pieces0,
            );
        }
        if ix@.len() == 32 {
            assert(pieces0.len() == 1);
            assert(digest_at(ix@, 0) =~= ix@);
            assert(concat_all(pieces0) == concat_all(pieces0.drop_last()) + pieces0.last());
            assert(pieces0.drop_last().len() == 0);
            assert(Seq::<u8>::empty() + pieces0.last() =~= pieces0.last());
            assert(pieces0[0] == data@);
        }
        assert(repo_extends(*old(repo), *repo));
        if data@.len() > 0 && chunk_type == ChunkType::Data {
            assert(pieces_digested(repo.data_map(), data@, ix@, pieces0));
        }
    }
    if ix.len() <= 32 {
        proof {
            reveal(root_of_levels);
            assert(root_of_levels(ix0v, MAX_INDEX_LEVELS as int) == ix0v);
            if data@.len() > 0 && chunk_type == ChunkType::Data {
                assert(root_digested(repo.index_map(), repo.data_map(), ix@, data@, chain));
            }
        }
        return ix;
    }
    let mut cur = ix;
    let mut level: u64 = 0;
    while cur.len() > 32 && level < MAX_INDEX_LEVELS
        invariant
            repo.wf(),
            repo.pk() == old(repo).pk(),
            cur@.len() % 32 == 0,
            cur@.len() > 0,
            repo_extends(*old(repo), *repo),
            old(repo).objects_good() ==> repo.objects_good(),
            old(repo).pk() == repo.pk(),
            data@.len() > 0,
            pieces0.len() > 1,
            concat_all(pieces0) == data@,
            forall|i: int| 0 <= i < pieces0.len() ==> (#[trigger] pieces0[i]).len() > 0,
            level <= MAX_INDEX_LEVELS,
            store_root(data@, chunk_type) == root_of_levels(
                cur@,
                MAX_INDEX_LEVELS as int - level as int,
            ),
            chain.len() >= 1,
            chain.last() == cur@,
            chunk_type == ChunkType::Data ==> level_digested(repo.data_map(), data@, chain[0])
                && (forall|k: int|
                0 <= k < chain.len() - 1 ==> index_level_digested(
                    repo.index_map(),
                    #[trigger] chain[k],
                    chain[k + 1],
                )),
        decreases MAX_INDEX_LEVELS - level,
    {
        let ghost pre = *repo;
        let ghost chain0 = chain;
        let next = store_index_level(repo, cur.as_slice());
        proof {
            assert(store_root(data@, chunk_type) == root_of_levels(
                next@,
                MAX_INDEX_LEVELS as int - (level + 1) as int,
            )) by {
                reveal(root_of_levels);
                assert(next@ == index_level_digests(cur@));
            }
            let pieces_l = choose|p: Seq<Seq<u8>>|
                level_stored(pre.index_map(), repo.index_map(), pre.pk(), cur@, next@, p) && (
                forall|i: int| 0 <= i < p.len() ==> (#[trigger] p[i]).len() % 32 == 0);
            assert(level_stored(pre.index_map(), repo.index_map(), pre.pk(), cur@, next@,
                pieces_l));
            lemma_level_extends(pre, *repo, cur@, next@, pieces_l);
            if chunk_type == ChunkType::Data {
                assert forall|k: int| 0 <= k < chain0.len() - 1 implies index_level_digested(
                    repo.index_map(),
                    #[trigger] chain0[k],
                    chain0[k + 1],
                ) by {
                    lemma_index_level_digested_grow(
                        pre.index_map(),
                        repo.index_map(),
                        chain0[k],
                        chain0[k + 1],
                    );
                }
                assert(pieces_digested(repo.index_map(), cur@, next@, pieces_l));
                assert(index_level_digested(repo.index_map(), cur@, next@));
            }
            chain = chain0.push(next@);
            assert(chain.last() == next@);
            assert(forall|k: int| 0 <= k < chain0.len() ==> chain[k] == chain0[k]);
            assert(chain[chain.len() - 2] == cur@);
        }
        cur = next;
        level = level + 1;
    }
    if cur.len() > 32 {
        // The level cap was reached: file the whole remaining index as one
        // chunk and root the tree at its digest.
        let ghost pre = *repo;
        let ghost chain0 = chain;
        let mut h = sha_new();
        sha_input(&mut h, cur.as_slice());
        let d = sha_result(&mut h);
        let _added = repo.store_chunk(&d, &cur, ChunkType::Index);
        proof {
            assert(store_root(data@, chunk_type) == d@) by {
                reveal(root_of_levels);
                assert(MAX_INDEX_LEVELS as int - level as int == 0);
            }
            assert(repo_extends(pre, *repo));
            if pre.objects_good() {
                assert forall|k: Seq<u8>| #[trigger]
                    repo.index_map().contains_key(k) implies obj_good(
                    repo.index_map()[k],
                    k,
                    repo.pk(),
                ) by {
                    if k != d@ || pre.index_map().contains_key(k) {
                        assert(pre.index_map().contains_key(k));
                        assert(obj_good(pre.index_map()[k], k, pre.pk()));
                    } else {
                        assert(stores_plain(repo.index_map()[d@], d@, pre.pk(), cur@));
                        assert(sha256_of(cur@) == d@);
                    }
                }
            }
            if chunk_type == ChunkType::Data {
                assert forall|k: int| 0 <= k < chain0.len() - 1 implies index_level_digested(
                    repo.index_map(),
                    #[trigger] chain0[k],
                    chain0[k + 1],
                ) by {
                    lemma_index_level_digested_grow(
                        pre.index_map(),
                        repo.index_map(),
                        chain0[k],
                        chain0[k + 1],
                    );
                }
                let fpieces = seq![cur@];
                assert(pieces_digested(repo.index_map(), cur@, d@, fpieces)) by {
                    assert(digest_at(d@, 0) =~= d@);
                    assert(concat_all(fpieces) == concat_all(fpieces.drop_last())
                        + fpieces.last());
                    assert(fpieces.drop_last().len() == 0);
                    assert(Seq::<u8>::empty() + fpieces.last() =~= fpieces.last());
                }
                assert(index_level_digested(repo.index_map(), cur@, d@));
                chain = chain0.push(d@);
                assert(forall|k: int| 0 <= k < chain0.len() ==> chain[k] == chain0[k]);
                assert(chain[chain.len() - 2] == cur@);
            }
        }
        cur = d;
    }
    proof {
        assert(cur@.len() == 32);
        assert(cur@ == store_root(data@, chunk_type)) by {
            reveal(root_of_levels);
        }
        if chunk_type == ChunkType::Data {
            assert(root_digested(repo.index_map(), repo.data_map(), cur@, data@, chain));
        }
    }
    cur
}

/// How many index levels a store may stack before the remaining index is
/// filed as a single chunk. The fan-out makes even two hundred levels
/// unreachable for any real stream.
pub const MAX_INDEX_LEVELS: u64 = 64;

/// An index level that fits a single chunk stores an index chunk whose
/// plaintext length is a positive multiple of 32: the chunk is the whole
/// level, a concatenation of 32-byte digests. `store_index_level` cuts a
/// longer level only at digest boundaries, so its chunks keep the same
/// shape (see `index_level_digested`).
pub proof fn lemma_single_index_chunk_multiple_of_32(
    m0: Map<Seq<u8>, Seq<u8>>,
    m1: Map<Seq<u8>, Seq<u8>>,
    pk: Seq<u8>,
    data: Seq<u8>,
    ix: Seq<u8>,
    pieces: Seq<Seq<u8>>,
)
    requires
        level_stored(m0, m1, pk, data, ix, pieces),
        pieces.len() == 1,
        data.len() % 32 == 0,
        data.len() > 0,
    ensures
        pieces[0] == data,
        pieces[0].len() % 32 == 0,
        pieces[0].len() > 0,
        m1.contains_key(sha256_of(pieces[0])),
{
    assert(concat_all(pieces) == concat_all(pieces.drop_last()) + pieces.last());
    assert(pieces.drop_last().len() == 0);
    assert(Seq::<u8>::empty() + pieces.last() =~= pieces.last());
    assert(digest_at(ix, 0) =~= ix);
}

/// Every object of `a`, of either kind, is still stored unchanged in `b`.
pub open spec fn repo_extends(a: Repo, b: Repo) -> bool {
    &&& forall|k: Seq<u8>| #[trigger]
        a.data_map().contains_key(k) ==> b.data_map().contains_key(k) && b.data_map()[k]
            == a.data_map()[k]
    &&& forall|k: Seq<u8>| #[trigger]
        a.index_map().contains_key(k) ==> b.index_map().contains_key(k) && b.index_map()[k]
            == a.index_map()[k]
}

/// A level stored on an empty stream leaves the maps unchanged.
proof fn lemma_level_maps_equal(
    m0: Map<Seq<u8>, Seq<u8>>,
    m1: Map<Seq<u8>, Seq<u8>>,
    pk: Seq<u8>,
    data: Seq<u8>,
    ix: Seq<u8>,
    pieces: Seq<Seq<u8>>,
)
    requires
        level_stored(m0, m1, pk, data, ix, pieces),
        data.len() == 0,
    ensures
        m1 == m0,
{
    assert(pieces.len() == 0) by {
        if pieces.len() > 0 {
            assert(concat_all(pieces) == concat_all(pieces.drop_last()) + pieces.last());
            assert(pieces.last().len() > 0);
        }
    }
    assert(m1 =~= m0);
}

/// One stored index level extends the repository.
proof fn lemma_level_extends(a: Repo, b: Repo, data: Seq<u8>, ix: Seq<u8>, pieces: Seq<Seq<u8>>)
    requires
        level_stored(
            a.kind_map(ChunkType::Index),
            b.kind_map(ChunkType::Index),
            a.pk(),
            data,
            ix,
            pieces,
        ),
        b.data_map() == a.data_map(),
    ensures
        repo_extends(a, b),
{
    assert(forall|k: Seq<u8>| #[trigger]
        a.index_map().contains_key(k) ==> b.index_map().contains_key(k) && b.index_map()[k]
            == a.index_map()[k]);
}


/// Store the chunks that a buffer's edges closed, in order: file each chunk
/// under its digest and kind, and return the concatenation of the digests.
#[verifier::rlimit(100)]
#[verifier::loop_isolation(true)]
fn store_pieces(
    repo: &mut Repo,
    edges: &Vec<crate::chunker::Edge>,
    chunks: &Vec<Vec<u8>>,
    kind: ChunkType,
    Ghost(data): Ghost<Seq<u8>>,
) -> (ix: Vec<u8>)
    requires
        old(repo).wf(),
        chunks@.len() == edges_view(edges@).len(),
        forall|i: int|
            0 <= i < edges_view(edges@).len() ==> (#[trigger] edges_view(edges@)[i]).1.len() == 32,
        forall|i: int|
            0 <= i < chunks@.len() ==> (#[trigger] chunks@[i])@ == piece(
                Seq::<u8>::empty(),
                data,
                edges_view(edges@),
                i,
            ),
        forall|i: int|
            0 <= i < edges_view(edges@).len() ==> (#[trigger] edges_view(edges@)[i]).1
                == sha256_of(piece(Seq::<u8>::empty(), data, edges_view(edges@), i)),
    ensures
        final(repo).wf(),
        final(repo).pk() == old(repo).pk(),
        match kind {
            ChunkType::Data => final(repo).index_map() == old(repo).index_map(),
            ChunkType::Index => final(repo).data_map() == old(repo).data_map(),
        },
        ix@.len() == 32 * chunks@.len(),
        ix@ == digests_seq(edges_view(edges@)),
        forall|i: int|
            0 <= i < chunks@.len() ==> digest_at(ix@, i) == (#[trigger] edges_view(edges@)[i]).1,
        forall|k: Seq<u8>| #[trigger]
            old(repo).kind_map(kind).contains_key(k) ==> final(repo).kind_map(kind).contains_key(k)
                && final(repo).kind_map(kind)[k] == old(repo).kind_map(kind)[k],
        forall|k: Seq<u8>| #[trigger]
            final(repo).kind_map(kind).contains_key(k) ==> old(repo).kind_map(kind).contains_key(k)
                || exists|i: int| 0 <= i < chunks@.len() && k == digest_at(ix@, i),
        forall|i: int|
            0 <= i < chunks@.len() ==> final(repo).kind_map(kind).contains_key(
                #[trigger] digest_at(ix@, i),
            ),
        forall|i: int|
            0 <= i < chunks@.len() && !old(repo).kind_map(kind).contains_key(
                #[trigger] digest_at(ix@, i),
            ) ==> obj_good(
                final(repo).kind_map(kind)[digest_at(ix@, i)],
                digest_at(ix@, i),
                old(repo).pk(),
            ),
        (chunks@.len() == 1 && !old(repo).kind_map(kind).contains_key(digest_at(ix@, 0))
            ==> stores_plain(
            final(repo).kind_map(kind)[digest_at(ix@, 0)],
            digest_at(ix@, 0),
            old(repo).pk(),
            chunks@[0]@,
        )),
{
    let ghost m0 = old(repo).kind_map(kind);
    let ghost pk = old(repo).pk();
    let ghost es = edges_view(edges@);
    let mut ix: Vec<u8> = Vec::new();
    proof {
        reveal(digests_seq);
        assert(es.take(0) =~= Seq::<(int, Seq<u8>)>::empty());
    }
    let mut j: usize = 0;
    while j < chunks.len()
        invariant
            repo.wf(),
            repo.pk() == pk,
            m0 == old(repo).kind_map(kind),
            pk == old(repo).pk(),
            match kind {
                ChunkType::Data => repo.index_map() == old(repo).index_map(),
                ChunkType::Index => repo.data_map() == old(repo).data_map(),
            },
            j <= chunks@.len(),
            es == edges_view(edges@),
            chunks@.len() == es.len(),
            forall|i: int| 0 <= i < es.len() ==> (#[trigger] es[i]).1.len() == 32,
            forall|i: int|
                0 <= i < chunks@.len() ==> (#[trigger] chunks@[i])@ == piece(
                    Seq::<u8>::empty(),
                    data,
                    es,
                    i,
                ),
            forall|i: int| 0 <= i < es.len() ==> (#[trigger] es[i]).1 == sha256_of(
                piece(Seq::<u8>::empty(), data, es, i),
            ),
            ix@.len() == 32 * j,
            ix@ == digests_seq(es.take(j as int)),
            forall|i: int| 0 <= i < j ==> digest_at(ix@, i) == (#[trigger] es[i]).1,
            forall|k: Seq<u8>| #[trigger]
                m0.contains_key(k) ==> repo.kind_map(kind).contains_key(k) && repo.kind_map(kind)[k]
                    == m0[k],
            forall|k: Seq<u8>| #[trigger]
                repo.kind_map(kind).contains_key(k) ==> m0.contains_key(k) || exists|i: int|
                    0 <= i < j && k == digest_at(ix@, i),
            forall|i: int|
                0 <= i < j ==> repo.kind_map(kind).contains_key(#[trigger] digest_at(ix@, i)),
            forall|i: int|
                0 <= i < j && !m0.contains_key(#[trigger] digest_at(ix@, i)) ==> obj_good(
                    repo.kind_map(kind)[digest_at(ix@, i)],
                    digest_at(ix@, i),
                    pk,
                ),
            (j == 1 && !m0.contains_key(digest_at(ix@, 0)) ==> stores_plain(
                repo.kind_map(kind)[digest_at(ix@, 0)],
                digest_at(ix@, 0),
                pk,
                chunks@[0]@,
            )),
        decreases chunks@.len() - j,
    {
        let ghost ix0 = ix@;
        let ghost cur0 = repo.kind_map(kind);
        let digest = &edges[j].1;
        proof {
            assert(digest@ == es[j as int].1);
        }
        let added = repo.store_chunk(digest, &chunks[j], kind);
        let mut dcopy = vstd::slice::slice_to_vec(digest.as_slice());
        ix.append(&mut dcopy);
        proof {
            lemma_digest_at_append(ix0, digest@, j as int);
            assert(forall|i: int| 0 <= i < j ==> digest_at(ix@, i) == digest_at(ix0, i));
            assert(digest_at(ix@, j as int) == digest@);
            assert(ix@ == digests_seq(es.take(j + 1))) by {
                reveal(digests_seq);
                assert(es.take(j + 1).drop_last() =~= es.take(j as int));
                assert(es.take(j + 1).last() == es[j as int]);
            }
            let cur1 = repo.kind_map(kind);
            if added {
                let obj = choose|obj: Seq<u8>|
                    cur1 == cur0.insert(digest@, obj) && stores_plain(obj, digest@, pk, chunks@[j as int]@);
                assert(stores_plain(cur1[digest@], digest@, pk, chunks@[j as int]@));
                assert(obj_good(cur1[digest@], digest@, pk)) by {
                    assert(sha256_of(chunks@[j as int]@) == digest@);
                }
            }
            assert forall|k: Seq<u8>| #[trigger] cur1.contains_key(k) implies m0.contains_key(k)
                || exists|i: int| 0 <= i < j + 1 && k == digest_at(ix@, i) by {
                if !m0.contains_key(k) {
                    if k == digest@ {
                        assert(0 <= j < j + 1 && k == digest_at(ix@, j as int));
                    } else {
                        assert(cur0.contains_key(k));
                        let i = choose|i: int| 0 <= i < j && k == digest_at(ix0, i);
                        assert(0 <= i < j + 1 && k == digest_at(ix@, i));
                    }
                }
            }
            assert forall|i: int| 0 <= i < j + 1 implies cur1.contains_key(
                #[trigger] digest_at(ix@, i),
            ) by {
                if i < j {
                    assert(cur0.contains_key(digest_at(ix0, i)));
                }
            }
            assert forall|i: int|
                0 <= i < j + 1 && !m0.contains_key(#[trigger] digest_at(ix@, i)) implies obj_good(
                cur1[digest_at(ix@, i)],
                digest_at(ix@, i),
                pk,
            ) by {
                if i < j {
                    assert(obj_good(cur0[digest_at(ix0, i)], digest_at(ix0, i), pk));
                    if added && digest_at(ix@, i) == digest@ {
                        assert(cur0.contains_key(digest_at(ix0, i)));
                        assert(false);
                    }
                    assert(cur1[digest_at(ix@, i)] == cur0[digest_at(ix0, i)]);
                }
            }
        }
        j = j + 1;
    }
    proof {
        assert(es.take(chunks@.len() as int) =~= es);
    }
    ix
}


/// Cut an index byte string only at 32-byte-aligned boundaries: the rolling
/// hash is consulted per 32-byte record, and a boundary it finds inside a
/// record is moved to the record's end, so every chunk of an index level is
/// a whole number of child digests. Returns the edges (offset past each
/// chunk and its SHA-256 digest) and the chunk bytes, covering all of
/// `data` with nothing left pending.
#[verifier::rlimit(100)]
#[verifier::loop_isolation(true)]
fn split_aligned(data: &[u8]) -> (r: (Vec<crate::chunker::Edge>, Vec<Vec<u8>>))
    requires
        data@.len() % 32 == 0,
    ensures
        ({
            let es = edges_view(r.0@);
            &&& r.1@.len() == es.len()
            &&& cuts(Seq::<u8>::empty(), data@, es, Seq::<u8>::empty())
            &&& forall|i: int|
                0 <= i < r.1@.len() ==> (#[trigger] r.1@[i])@ == piece(
                    Seq::<u8>::empty(),
                    data@,
                    es,
                    i,
                )
            &&& forall|i: int| 0 <= i < es.len() ==> (#[trigger] es[i]).0 % 32 == 0
            &&& digests_seq(es) == index_level_digests(data@)
        }),
{
    let ghost tail0 = Seq::<u8>::empty();
    let mut roll = bup_new();
    let mut sha = sha_new();
    let mut edges: Vec<crate::chunker::Edge> = Vec::new();
    let mut chunks: Vec<Vec<u8>> = Vec::new();
    let mut start: usize = 0;
    let mut pos: usize = 0;
    let len = data.len();
    proof {
        reveal(digests_seq);
        assert(edges_view(edges@) =~= Seq::<(int, Seq<u8>)>::empty());
        assert(sha_fed(sha) =~= tail0 + data@.subrange(0, 0));
        assert(data@.subrange(0, 0) =~= Seq::<u8>::empty());
        assert(data@.skip(0) =~= data@);
        assert(Seq::<u8>::empty() + aligned_digests(Seq::<u8>::empty(), data@)
            =~= aligned_digests(Seq::<u8>::empty(), data@));
    }
    while pos < len
        invariant
            tail0 == Seq::<u8>::empty(),
            len == data@.len(),
            data@.len() % 32 == 0,
            pos % 32 == 0,
            start <= pos <= len,
            sha_ready(sha),
            cuts_upto(tail0, data@, edges_view(edges@), sha_fed(sha), pos as int),
            sha_fed(sha) == data@.subrange(start as int, pos as int),
            edges@.len() == 0 ==> start == 0,
            edges@.len() > 0 ==> start as int == edges_view(edges@).last().0,
            pos == len ==> start == pos,
            chunks@.len() == edges@.len(),
            forall|i: int|
                0 <= i < chunks@.len() ==> (#[trigger] chunks@[i])@ == piece(
                    tail0,
                    data@,
                    edges_view(edges@),
                    i,
                ),
            forall|i: int|
                0 <= i < edges_view(edges@).len() ==> (#[trigger] edges_view(edges@)[i]).0 % 32
                    == 0,
            pos < len ==> bup_fed(roll) == data@.subrange(start as int, pos as int),
            index_level_digests(data@) == digests_seq(edges_view(edges@)) + aligned_digests(
                data@.subrange(start as int, pos as int),
                data@.skip(pos as int),
            ),
        decreases len - pos,
    {
        let ghost es0 = edges_view(edges@);
        let ghost fed0 = sha_fed(sha);
        let ghost pos0 = pos as int;
        let ghost tail_cur = data@.subrange(start as int, pos as int);
        proof {
            assert(pos + 32 <= len) by {
                assert(pos % 32 == 0 && len % 32 == 0 && pos < len);
            }
        }
        let record = vstd::slice::slice_subrange(data, pos, pos + 32);
        sha_input(&mut sha, record);
        let hit = bup_find_chunk_edge(&mut roll, record);
        pos = pos + 32;
        proof {
            assert(sha_fed(sha) == fed0 + data@.subrange(pos - 32, pos as int));
            crate::chunker::lemma_extend_tail(tail0, data@, es0, fed0, pos - 32, pos as int,
                sha_fed(sha));
            assert(sha_fed(sha) =~= data@.subrange(start as int, pos as int));
            assert(record@ == data@.subrange(pos0, pos0 + 32));
            assert(data@.skip(pos0).take(32) =~= record@);
            assert(data@.skip(pos0).skip(32) =~= data@.skip(pos0 + 32));
            assert(data@.skip(pos0).len() == len - pos0);
        }
        if hit.is_some() || pos == len {
            let ghost chunks0 = chunks@;
            let ghost tail_mid = sha_fed(sha);
            let d = sha_result(&mut sha);
            sha_reset(&mut sha);
            let chunk = vstd::slice::slice_to_vec(vstd::slice::slice_subrange(data, start, pos));
            edges.push((pos, d));
            chunks.push(chunk);
            proof {
                assert(edges_view(edges@) =~= es0.push((pos as int, sha256_of(tail_mid))));
                assert(tail_cur + record@ =~= tail_mid);
                lemma_split_emit_all(data@, es0, edges_view(edges@), chunks0, chunks@, tail_cur,
                    tail_mid, record@, start as int, pos as int);
                assert(data@.subrange(pos as int, pos as int) =~= Seq::<u8>::empty());
            }
            start = pos;
        } else {
            proof {
                lemma_aligned_skip_digests(data@, tail_cur, record@, pos0);
                assert(tail_cur + record@ =~= data@.subrange(start as int, pos as int));
            }
        }
    }
    proof {
        if edges@.len() == 0 {
            assert(sha_fed(sha) =~= Seq::<u8>::empty());
        } else {
            assert(sha_fed(sha) =~= Seq::<u8>::empty());
        }
        assert(cuts(tail0, data@, edges_view(edges@), sha_fed(sha)));
        reveal(aligned_digests);
        assert(data@.skip(len as int) =~= Seq::<u8>::empty());
        assert(data@.subrange(len as int, len as int) =~= Seq::<u8>::empty());
        assert(aligned_digests(Seq::<u8>::empty(), Seq::<u8>::empty()) == Seq::<u8>::empty());
        assert(digests_seq(edges_view(edges@)) + Seq::<u8>::empty() =~= digests_seq(
            edges_view(edges@),
        ));
    }
    (edges, chunks)
}

/// Store one level of an index byte string, cut only at digest boundaries:
/// every stored chunk's plaintext is a positive multiple of 32 bytes.
#[verifier::rlimit(100)]
pub fn store_index_level(repo: &mut Repo, data: &[u8]) -> (ix: Vec<u8>)
    requires
        old(repo).wf(),
        data@.len() % 32 == 0,
    ensures
        final(repo).wf(),
        final(repo).pk() == old(repo).pk(),
        final(repo).data_map() == old(repo).data_map(),
        ix@.len() % 32 == 0,
        (data@.len() == 0) == (ix@.len() == 0),
        ix@ == index_level_digests(data@),
        exists|pieces: Seq<Seq<u8>>|
            level_stored(
                old(repo).index_map(),
                final(repo).index_map(),
                old(repo).pk(),
                data@,
                ix@,
                pieces,
            ) && (forall|i: int|
                0 <= i < pieces.len() ==> (#[trigger] pieces[i]).len() % 32 == 0),
        old(repo).objects_good() ==> final(repo).objects_good(),
{
    let ghost m0 = old(repo).index_map();
    let ghost pk = old(repo).pk();
    let (edges, chunks) = split_aligned(data);
    let ghost es = edges_view(edges@);
    let ix = store_pieces(repo, &edges, &chunks, ChunkType::Index, Ghost(data@));
    proof {
        let base_pieces = chunks@.map_values(|c: Vec<u8>| c@);
        assert(forall|i: int| 0 <= i < base_pieces.len() ==> #[trigger] base_pieces[i]
            == chunks@[i]@);
        lemma_index_level_assembled(m0, repo.index_map(), pk, data@, ix@, es, base_pieces);
        if old(repo).objects_good() {
            lemma_level_objects_good(*old(repo), *repo, ChunkType::Index, data@, ix@);
        }
    }
    ix
}


/// An aligned split that was stored piece by piece makes a stored level
/// whose chunks are all positive multiples of 32 bytes.
#[verifier::rlimit(100)]
proof fn lemma_index_level_assembled(
    m0: Map<Seq<u8>, Seq<u8>>,
    m1: Map<Seq<u8>, Seq<u8>>,
    pk: Seq<u8>,
    data: Seq<u8>,
    ix: Seq<u8>,
    es: Seq<(int, Seq<u8>)>,
    base_pieces: Seq<Seq<u8>>,
)
    requires
        data.len() % 32 == 0,
        cuts(Seq::<u8>::empty(), data, es, Seq::<u8>::empty()),
        base_pieces.len() == es.len(),
        forall|i: int|
            0 <= i < base_pieces.len() ==> #[trigger] base_pieces[i] == piece(
                Seq::<u8>::empty(),
                data,
                es,
                i,
            ),
        forall|i: int| 0 <= i < es.len() ==> (#[trigger] es[i]).0 % 32 == 0,
        ix.len() == 32 * base_pieces.len(),
        forall|i: int| 0 <= i < base_pieces.len() ==> digest_at(ix, i) == (#[trigger] es[i]).1,
        forall|k: Seq<u8>| #[trigger] m0.contains_key(k) ==> m1.contains_key(k) && m1[k] == m0[k],
        forall|k: Seq<u8>| #[trigger]
            m1.contains_key(k) ==> m0.contains_key(k) || exists|i: int|
                0 <= i < base_pieces.len() && k == digest_at(ix, i),
        forall|i: int|
            0 <= i < base_pieces.len() ==> m1.contains_key(#[trigger] digest_at(ix, i)),
        forall|i: int|
            0 <= i < base_pieces.len() && !m0.contains_key(#[trigger] digest_at(ix, i))
                ==> obj_good(m1[digest_at(ix, i)], digest_at(ix, i), pk),
        (base_pieces.len() == 1 && !m0.contains_key(digest_at(ix, 0)) ==> stores_plain(
            m1[digest_at(ix, 0)],
            digest_at(ix, 0),
            pk,
            base_pieces[0],
        )),
    ensures
        level_stored(m0, m1, pk, data, ix, base_pieces),
        forall|i: int| 0 <= i < base_pieces.len() ==> (#[trigger] base_pieces[i]).len() % 32 == 0,
        (data.len() == 0) == (ix.len() == 0),
{
    lemma_aligned_cover(data, es, base_pieces);
    assert(forall|i: int|
        0 <= i < base_pieces.len() ==> digest_at(ix, i) == sha256_of(#[trigger] base_pieces[i]));
    lemma_level_no_fin(m0, m1, pk, data, ix, base_pieces);
    if data.len() > 0 && base_pieces.len() == 0 {
        assert(concat_all(base_pieces) == data);
        assert(false);
    }
    if data.len() == 0 && es.len() > 0 {
        assert(0 < es[es.len() - 1].0);
    }
}

/// A full, aligned cut's chunks concatenate to the whole buffer, and each is
/// a positive multiple of 32 bytes.
#[verifier::rlimit(100)]
proof fn lemma_aligned_cover(data: Seq<u8>, es: Seq<(int, Seq<u8>)>, base_pieces: Seq<Seq<u8>>)
    requires
        data.len() % 32 == 0,
        cuts(Seq::<u8>::empty(), data, es, Seq::<u8>::empty()),
        base_pieces.len() == es.len(),
        forall|i: int|
            0 <= i < base_pieces.len() ==> #[trigger] base_pieces[i] == piece(
                Seq::<u8>::empty(),
                data,
                es,
                i,
            ),
        forall|i: int| 0 <= i < es.len() ==> (#[trigger] es[i]).0 % 32 == 0,
    ensures
        concat_all(base_pieces) == data,
        forall|i: int| 0 <= i < base_pieces.len() ==> (#[trigger] base_pieces[i]).len() % 32 == 0,
        forall|i: int| 0 <= i < base_pieces.len() ==> (#[trigger] base_pieces[i]).len() > 0,
{
    lemma_concat_matches(Seq::<u8>::empty(), data, es, base_pieces);
    lemma_chunker_completeness(Seq::<u8>::empty(), data, es, Seq::<u8>::empty());
    assert(concat_pieces(Seq::<u8>::empty(), data, es) + Seq::<u8>::empty() =~= concat_pieces(
        Seq::<u8>::empty(),
        data,
        es,
    ));
    assert(Seq::<u8>::empty() + data =~= data);
    lemma_pieces_mod32(data, es, base_pieces);
}

/// Chunks delimited by 32-aligned offsets are nonempty multiples of 32.
proof fn lemma_pieces_mod32(data: Seq<u8>, es: Seq<(int, Seq<u8>)>, base_pieces: Seq<Seq<u8>>)
    requires
        edge_bounds(es, data.len() as int),
        base_pieces.len() == es.len(),
        forall|i: int|
            0 <= i < base_pieces.len() ==> #[trigger] base_pieces[i] == piece(
                Seq::<u8>::empty(),
                data,
                es,
                i,
            ),
        forall|i: int| 0 <= i < es.len() ==> (#[trigger] es[i]).0 % 32 == 0,
    ensures
        forall|i: int| 0 <= i < base_pieces.len() ==> (#[trigger] base_pieces[i]).len() % 32 == 0,
        forall|i: int| 0 <= i < base_pieces.len() ==> (#[trigger] base_pieces[i]).len() > 0,
{
    assert forall|i: int|
        0 <= i < base_pieces.len() implies (#[trigger] base_pieces[i]).len() % 32 == 0
        && base_pieces[i].len() > 0 by {
        assert(base_pieces[i] == piece(Seq::<u8>::empty(), data, es, i));
        if i == 0 {
            assert(es[0].0 % 32 == 0);
        } else {
            assert(es[i - 1].0 % 32 == 0 && es[i].0 % 32 == 0);
        }
    }
}

/// One closed chunk of an aligned level extends the digest string by the
/// chunk's digest.
proof fn lemma_aligned_emit_digests(
    data: Seq<u8>,
    es0: Seq<(int, Seq<u8>)>,
    es1: Seq<(int, Seq<u8>)>,
    tail_cur: Seq<u8>,
    tail_mid: Seq<u8>,
    rec: Seq<u8>,
    pos0: int,
)
    requires
        0 <= pos0,
        pos0 + 32 <= data.len(),
        rec == data.subrange(pos0, pos0 + 32),
        tail_mid == tail_cur + rec,
        es1 == es0.push((pos0 + 32, sha256_of(tail_mid))),
        crate::rolling::bup_edge_of(tail_cur, rec) is Some || pos0 + 32 == data.len(),
        index_level_digests(data) == digests_seq(es0) + aligned_digests(
            tail_cur,
            data.skip(pos0),
        ),
    ensures
        index_level_digests(data) == digests_seq(es1) + aligned_digests(
            Seq::<u8>::empty(),
            data.skip(pos0 + 32),
        ),
{
    reveal(aligned_digests);
    reveal(digests_seq);
    assert(data.skip(pos0).take(32) =~= rec);
    assert(data.skip(pos0).skip(32) =~= data.skip(pos0 + 32));
    assert(data.skip(pos0).len() == data.len() - pos0);
    assert(aligned_digests(tail_cur, data.skip(pos0)) == sha256_of(tail_mid) + aligned_digests(
        Seq::<u8>::empty(),
        data.skip(pos0 + 32),
    ));
    assert(digests_seq(es1) == digests_seq(es0) + sha256_of(tail_mid)) by {
        assert(es1.drop_last() =~= es0);
    }
    assert(digests_seq(es0) + (sha256_of(tail_mid) + aligned_digests(
        Seq::<u8>::empty(),
        data.skip(pos0 + 32),
    )) =~= digests_seq(es1) + aligned_digests(Seq::<u8>::empty(), data.skip(pos0 + 32)));
}

/// A record without a boundary only grows the pending chunk.
proof fn lemma_aligned_skip_digests(data: Seq<u8>, tail_cur: Seq<u8>, rec: Seq<u8>, pos0: int)
    requires
        0 <= pos0,
        pos0 + 32 < data.len(),
        rec == data.subrange(pos0, pos0 + 32),
        crate::rolling::bup_edge_of(tail_cur, rec) is None,
    ensures
        aligned_digests(tail_cur, data.skip(pos0)) == aligned_digests(
            tail_cur + rec,
            data.skip(pos0 + 32),
        ),
{
    reveal(aligned_digests);
    assert(data.skip(pos0).take(32) =~= rec);
    assert(data.skip(pos0).skip(32) =~= data.skip(pos0 + 32));
    assert(data.skip(pos0).len() == data.len() - pos0);
}


/// Closing an aligned chunk at `pos` keeps every earlier chunk the piece its
/// edge delimits, and makes the new chunk the piece of the new last edge.
proof fn lemma_split_emit_pieces(
    data: Seq<u8>,
    es0: Seq<(int, Seq<u8>)>,
    es1: Seq<(int, Seq<u8>)>,
    chunks0: Seq<Vec<u8>>,
    chunks1: Seq<Vec<u8>>,
    tail_mid: Seq<u8>,
    start: int,
    pos: int,
)
    requires
        es1 == es0.push((pos, sha256_of(tail_mid))),
        chunks1.len() == chunks0.len() + 1,
        forall|i: int| 0 <= i < chunks0.len() ==> #[trigger] chunks1[i] == chunks0[i],
        0 <= start <= pos <= data.len(),
        chunks1.last()@ == data.subrange(start, pos),
        tail_mid == if es0.len() == 0 {
            Seq::<u8>::empty() + data.subrange(0, pos)
        } else {
            data.subrange(es0.last().0, pos)
        },
        es0.len() == 0 ==> start == 0,
        es0.len() > 0 ==> start == es0.last().0,
        forall|i: int|
            0 <= i < chunks0.len() ==> (#[trigger] chunks0[i])@ == piece(
                Seq::<u8>::empty(),
                data,
                es0,
                i,
            ),
        chunks0.len() == es0.len(),
    ensures
        forall|i: int|
            0 <= i < chunks1.len() ==> (#[trigger] chunks1[i])@ == piece(
                Seq::<u8>::empty(),
                data,
                es1,
                i,
            ),
{
    assert(forall|i: int| 0 <= i < es0.len() ==> es1[i] == es0[i]);
    assert(chunks1.last()@ =~= piece(Seq::<u8>::empty(), data, es1, es1.len() - 1)) by {
        if es0.len() == 0 {
            assert(tail_mid =~= Seq::<u8>::empty() + data.subrange(0, pos));
            assert(chunks1.last()@ =~= Seq::<u8>::empty() + data.subrange(0, pos));
        }
    }
    assert forall|i: int|
        0 <= i < chunks1.len() implies (#[trigger] chunks1[i])@ == piece(
        Seq::<u8>::empty(),
        data,
        es1,
        i,
    ) by {
        if i < chunks0.len() {
            assert(chunks1[i] == chunks0[i]);
            assert(piece(Seq::<u8>::empty(), data, es1, i) == piece(
                Seq::<u8>::empty(),
                data,
                es0,
                i,
            ));
        }
    }
}



/// The whole emit step of the aligned splitter: closing the pending chunk at
/// a record boundary keeps the cut, the piece relation and the digest chain.
#[verifier::rlimit(100)]
proof fn lemma_split_emit_all(
    data: Seq<u8>,
    es0: Seq<(int, Seq<u8>)>,
    es1: Seq<(int, Seq<u8>)>,
    chunks0: Seq<Vec<u8>>,
    chunks1: Seq<Vec<u8>>,
    tail_cur: Seq<u8>,
    tail_mid: Seq<u8>,
    rec: Seq<u8>,
    start: int,
    pos: int,
)
    requires
        cuts_upto(Seq::<u8>::empty(), data, es0, tail_mid, pos),
        32 <= tail_mid.len(),
        es1 == es0.push((pos, sha256_of(tail_mid))),
        sha256_of(tail_mid).len() == 32,
        0 < pos <= data.len(),
        pos >= 32,
        chunks1.len() == chunks0.len() + 1,
        forall|i: int| 0 <= i < chunks0.len() ==> #[trigger] chunks1[i] == chunks0[i],
        0 <= start <= pos,
        chunks1.last()@ == data.subrange(start, pos),
        es0.len() == 0 ==> start == 0,
        es0.len() > 0 ==> start == es0.last().0,
        forall|i: int|
            0 <= i < chunks0.len() ==> (#[trigger] chunks0[i])@ == piece(
                Seq::<u8>::empty(),
                data,
                es0,
                i,
            ),
        chunks0.len() == es0.len(),
        rec == data.subrange(pos - 32, pos),
        tail_cur == data.subrange(start, pos - 32),
        tail_mid == tail_cur + rec,
        crate::rolling::bup_edge_of(tail_cur, rec) is Some || pos == data.len(),
        index_level_digests(data) == digests_seq(es0) + aligned_digests(
            tail_cur,
            data.skip(pos - 32),
        ),
    ensures
        cuts_upto(Seq::<u8>::empty(), data, es1, Seq::<u8>::empty(), pos),
        forall|i: int|
            0 <= i < chunks1.len() ==> (#[trigger] chunks1[i])@ == piece(
                Seq::<u8>::empty(),
                data,
                es1,
                i,
            ),
        index_level_digests(data) == digests_seq(es1) + aligned_digests(
            Seq::<u8>::empty(),
            data.skip(pos),
        ),
{
    crate::chunker::lemma_cut_edge(Seq::<u8>::empty(), data, es0, es1, tail_mid, pos,
        Seq::<u8>::empty());
    lemma_split_emit_pieces(data, es0, es1, chunks0, chunks1, tail_mid, start, pos);
    lemma_aligned_emit_digests(data, es0, es1, tail_cur, tail_mid, rec, pos - 32);
}

} // verus!
