//! Content-defined chunker: cuts an input byte stream at boundaries chosen
//! by a rolling hash, and emits for each chunk an edge — the offset just
//! past the chunk in the current buffer, and the SHA-256 digest of the
//! chunk's bytes.

use vstd::prelude::*;

use crate::rolling::{bup_edge_of, bup_fed, bup_find_chunk_edge, bup_new};
use crate::sha::{sha256_of, sha_fed, sha_input, sha_new, sha_ready, sha_reset, sha_result};

verus! {

/// Edge: offset in the input buffer and the SHA-256 digest of the chunk that
/// ends there.
pub type Edge = (usize, Vec<u8>);

/// The mathematical content of an edge: offset and digest bytes.
pub open spec fn edge_view(e: Edge) -> (int, Seq<u8>) {
    (e.0 as int, e.1@)
}

/// The mathematical content of an edge list.
pub open spec fn edges_view(es: Seq<Edge>) -> Seq<(int, Seq<u8>)> {
    es.map_values(|e: Edge| edge_view(e))
}

/// Offsets of `es` are strictly increasing, positive, and at most `upto`.
pub open spec fn edge_bounds(es: Seq<(int, Seq<u8>)>, upto: int) -> bool {
    &&& forall|i: int| 0 <= i < es.len() ==> 0 < (#[trigger] es[i]).0 <= upto
    &&& forall|i: int| 0 <= i && i + 1 < es.len() ==> (#[trigger] es[i]).0 < es[i + 1].0
}

/// The bytes of chunk `i` among the chunks that `es` delimits, when the
/// chunker held `tail0` and was then given `buf`: the first chunk starts
/// with `tail0`, every later chunk is a slice of `buf` between two offsets.
pub open spec fn piece(tail0: Seq<u8>, buf: Seq<u8>, es: Seq<(int, Seq<u8>)>, i: int) -> Seq<u8> {
    if i == 0 {
        tail0 + buf.subrange(0, es[0].0)
    } else {
        buf.subrange(es[i - 1].0, es[i].0)
    }
}

/// `es` records, in order, the chunk boundaries found in `buf.take(upto)`
/// continuing the pending bytes `tail0`, leaving `tail1` unconsumed: each
/// edge carries the SHA-256 digest of its chunk, and `tail1` is what lies
/// after the last boundary.
pub open spec fn cuts_upto(
    tail0: Seq<u8>,
    buf: Seq<u8>,
    es: Seq<(int, Seq<u8>)>,
    tail1: Seq<u8>,
    upto: int,
) -> bool {
    &&& edge_bounds(es, upto)
    &&& forall|i: int|
        0 <= i < es.len() ==> (#[trigger] es[i]).1 == sha256_of(piece(tail0, buf, es, i))
    &&& forall|i: int| 0 <= i < es.len() ==> (#[trigger] es[i]).1.len() == 32
    &&& if es.len() == 0 {
        tail1 == tail0 + buf.subrange(0, upto)
    } else {
        tail1 == buf.subrange(es[es.len() - 1].0, upto)
    }
}

/// `es` records the chunk boundaries found in all of `buf`.
pub open spec fn cuts(tail0: Seq<u8>, buf: Seq<u8>, es: Seq<(int, Seq<u8>)>, tail1: Seq<u8>) -> bool {
    cuts_upto(tail0, buf, es, tail1, buf.len() as int)
}

/// The chunks that `es` delimits, concatenated in order.
pub open spec fn concat_pieces(tail0: Seq<u8>, buf: Seq<u8>, es: Seq<(int, Seq<u8>)>) -> Seq<u8>
    decreases es.len(),
{
    if es.len() == 0 {
        Seq::empty()
    } else {
        concat_pieces(tail0, buf, es.drop_last()) + piece(tail0, buf, es, es.len() - 1)
    }
}

/// The chunks delimited by edges reassemble the consumed prefix exactly.
proof fn lemma_concat_pieces_prefix(tail0: Seq<u8>, buf: Seq<u8>, es: Seq<(int, Seq<u8>)>)
    requires
        es.len() > 0,
        edge_bounds(es, buf.len() as int),
    ensures
        concat_pieces(tail0, buf, es) == tail0 + buf.subrange(0, es[es.len() - 1].0),
    decreases es.len(),
{
    let n = es.len() - 1;
    if n == 0 {
        assert(concat_pieces(tail0, buf, es.drop_last()) + piece(tail0, buf, es, 0) =~= tail0
            + buf.subrange(0, es[0].0));
    } else {
        assert(edge_bounds(es.drop_last(), buf.len() as int));
        lemma_concat_pieces_prefix(tail0, buf, es.drop_last());
        assert(forall|i: int|
            0 <= i < es.drop_last().len() ==> (#[trigger] es.drop_last()[i]).0 == es[i].0);
        assert(piece(tail0, buf, es, n as int) == buf.subrange(es[n - 1].0, es[n as int].0));
        assert((tail0 + buf.subrange(0, es[n - 1].0)) + buf.subrange(es[n - 1].0, es[n as int].0)
            =~= tail0 + buf.subrange(0, es[n as int].0));
    }
}

/// Chunker completeness: concatenating, in order, the chunks delimited by the
/// edges of a cut, followed by the unconsumed tail, yields exactly the
/// pending bytes followed by the whole input buffer.
pub proof fn lemma_chunker_completeness(
    tail0: Seq<u8>,
    buf: Seq<u8>,
    es: Seq<(int, Seq<u8>)>,
    tail1: Seq<u8>,
)
    requires
        cuts(tail0, buf, es, tail1),
    ensures
        concat_pieces(tail0, buf, es) + tail1 == tail0 + buf,
{
    if es.len() == 0 {
        assert(concat_pieces(tail0, buf, es) + tail1 =~= tail0 + buf) by {
            assert(buf.subrange(0, buf.len() as int) =~= buf);
        }
    } else {
        lemma_concat_pieces_prefix(tail0, buf, es);
        assert((tail0 + buf.subrange(0, es[es.len() - 1].0)) + buf.subrange(
            es[es.len() - 1].0,
            buf.len() as int,
        ) =~= tail0 + buf);
    }
}

/// An edge list moved `c` bytes later in the buffer.
pub open spec fn shift_edges(es: Seq<(int, Seq<u8>)>, c: int) -> Seq<(int, Seq<u8>)> {
    es.map_values(|e: (int, Seq<u8>)| (e.0 + c, e.1))
}

proof fn lemma_shift_zero(es: Seq<(int, Seq<u8>)>)
    ensures
        shift_edges(es, 0) =~= es,
{
}

proof fn lemma_shift_concat(a: Seq<(int, Seq<u8>)>, b: Seq<(int, Seq<u8>)>, c: int)
    ensures
        shift_edges(a + b, c) =~= shift_edges(a, c) + shift_edges(b, c),
{
}

proof fn lemma_shift_shift(es: Seq<(int, Seq<u8>)>, a: int, b: int)
    ensures
        shift_edges(shift_edges(es, a), b) =~= shift_edges(es, a + b),
{
}

/// The cut that the rolling hash dictates for `buf`, fed to a chunker that
/// holds `tail0` pending: the edges — offset into `buf` and the digest of the
/// chunk each one closes — and the bytes left pending after the last
/// boundary. A function of the bytes alone, so the cut, and with it every
/// digest a store emits, is deterministic in the stream.
#[verifier::opaque]
pub open spec fn hash_cut(tail0: Seq<u8>, buf: Seq<u8>) -> (Seq<(int, Seq<u8>)>, Seq<u8>)
    decreases buf.len(),
{
    match crate::rolling::bup_edge_of(tail0, buf) {
        Option::Some(c) => if 1 <= c && c <= buf.len() {
            let first = (c, sha256_of(tail0 + buf.take(c)));
            let rest = hash_cut(Seq::<u8>::empty(), buf.skip(c));
            (seq![first] + shift_edges(rest.0, c), rest.1)
        } else {
            (Seq::<(int, Seq<u8>)>::empty(), tail0 + buf)
        },
        Option::None => (Seq::<(int, Seq<u8>)>::empty(), tail0 + buf),
    }
}

/// The cut of an empty buffer is empty whatever the boundary function says.
pub proof fn lemma_hash_cut_empty(tail0: Seq<u8>)
    ensures
        hash_cut(tail0, Seq::<u8>::empty()).0 == Seq::<(int, Seq<u8>)>::empty(),
        hash_cut(tail0, Seq::<u8>::empty()).1 == tail0,
{
    reveal(hash_cut);
    assert(hash_cut(tail0, Seq::<u8>::empty()).1 =~= tail0) by {
        reveal(hash_cut);
        assert(tail0 + Seq::<u8>::empty() =~= tail0);
    }
}

/// Splits an input stream into content-defined chunks. Bytes are fed with
/// `input`; each completed chunk is reported as an edge; bytes after the
/// last boundary stay pending until a later boundary or `finish`.
pub struct Chunker {
    roll: rollsum::Bup,
    sha256: crypto::sha2::Sha256,
    bytes_total: usize,
    bytes_chunk: usize,
    chunks_total: usize,
    edges: Vec<Edge>,
}

impl Chunker {
    /// Bytes consumed since the last chunk boundary: the pending chunk.
    pub closed spec fn tail(self) -> Seq<u8> {
        sha_fed(self.sha256)
    }

    /// Edges found and not yet handed out.
    pub closed spec fn pending_edges(self) -> Seq<(int, Seq<u8>)> {
        edges_view(self.edges@)
    }

    /// Total bytes consumed.
    pub closed spec fn total(self) -> int {
        self.bytes_total as int
    }

    /// The byte counters agree with the pending chunk, and every finished
    /// chunk holds at least one byte.
    pub closed spec fn counters_ok(self) -> bool {
        &&& self.bytes_chunk == self.tail().len()
        &&& self.chunks_total + self.tail().len() <= self.bytes_total
        &&& sha_ready(self.sha256)
    }

    /// Well-formed: counters agree and the rolling hash has been fed exactly
    /// the pending chunk.
    pub closed spec fn wf(self) -> bool {
        &&& self.counters_ok()
        &&& bup_fed(self.roll) == self.tail()
    }

    /// A fresh chunker: nothing consumed, nothing pending.
    pub fn new() -> (r: Self)
        ensures
            r.wf(),
            r.tail() == Seq::<u8>::empty(),
            r.pending_edges() == Seq::<(int, Seq<u8>)>::empty(),
            r.total() == 0,
    {
        let r = Chunker {
            roll: bup_new(),
            sha256: sha_new(),
            bytes_total: 0,
            bytes_chunk: 0,
            chunks_total: 0,
            edges: Vec::new(),
        };
        proof {
            assert(r.pending_edges() =~= Seq::<(int, Seq<u8>)>::empty());
        }
        r
    }

    /// Close the pending chunk at buffer offset `input_ofs`: record an edge
    /// carrying the SHA-256 digest of the pending bytes, and start afresh.
    pub fn edge_found(&mut self, input_ofs: usize)
        requires
            old(self).counters_ok(),
            old(self).tail().len() > 0,
        ensures
            final(self).wf(),
            final(self).tail() == Seq::<u8>::empty(),
            final(self).pending_edges() == old(self).pending_edges().push(
                (input_ofs as int, sha256_of(old(self).tail())),
            ),
            sha256_of(old(self).tail()).len() == 32,
            final(self).total() == old(self).total(),
    {
        let sum = sha_result(&mut self.sha256);
        self.edges.push((input_ofs, sum));
        self.chunks_total = self.chunks_total + 1;
        self.bytes_chunk = 0;
        sha_reset(&mut self.sha256);
        self.roll = bup_new();
        proof {
            assert(self.pending_edges() =~= old(self).pending_edges().push(
                (input_ofs as int, sha256_of(old(self).tail())),
            ));
        }
    }

    /// Consume `buf` and return all edges found so far, the newly found ones
    /// after any still pending: the new edges are exactly the cut that the
    /// rolling hash dictates for `buf` continuing the pending bytes — so two
    /// chunkers fed the same bytes emit the same edges — and what follows the
    /// last boundary is retained as the new tail.
    #[verifier::rlimit(100)]
    #[verifier::loop_isolation(true)]
    pub fn input(&mut self, buf: &[u8]) -> (r: Vec<Edge>)
        requires
            old(self).wf(),
            old(self).total() + buf@.len() <= usize::MAX,
        ensures
            final(self).wf(),
            final(self).pending_edges().len() == 0,
            final(self).total() == old(self).total() + buf@.len(),
            edges_view(r@).len() >= old(self).pending_edges().len(),
            edges_view(r@).take(old(self).pending_edges().len() as int) == old(
                self,
            ).pending_edges(),
            cuts(
                old(self).tail(),
                buf@,
                edges_view(r@).skip(old(self).pending_edges().len() as int),
                final(self).tail(),
            ),
            edges_view(r@).skip(old(self).pending_edges().len() as int) == hash_cut(
                old(self).tail(),
                buf@,
            ).0,
            final(self).tail() == hash_cut(old(self).tail(), buf@).1,
    {
        let ghost k = old(self).pending_edges().len() as int;
        let ghost tail0 = old(self).tail();
        let mut ofs: usize = 0;
        let len = buf.len();
        proof {
            assert(edges_view(self.edges@).skip(k) =~= Seq::<(int, Seq<u8>)>::empty());
            assert(self.tail() =~= tail0 + buf@.subrange(0, 0));
            assert(buf@.skip(0) =~= buf@);
            lemma_shift_zero(hash_cut(self.tail(), buf@).0);
            assert(hash_cut(tail0, buf@).0 =~= edges_view(self.edges@).skip(k) + shift_edges(
                hash_cut(self.tail(), buf@.skip(0)).0,
                0,
            ));
        }
        while ofs < len
            invariant
                self.wf(),
                ofs <= len,
                len == buf@.len(),
                self.bytes_total == old(self).bytes_total + ofs,
                old(self).total() + buf@.len() <= usize::MAX,
                self.pending_edges().len() >= k,
                k == old(self).pending_edges().len(),
                self.pending_edges().take(k) == old(self).pending_edges(),
                tail0 == old(self).tail(),
                cuts_upto(tail0, buf@, self.pending_edges().skip(k), self.tail(), ofs as int),
                hash_cut(tail0, buf@).0 == self.pending_edges().skip(k) + shift_edges(
                    hash_cut(self.tail(), buf@.skip(ofs as int)).0,
                    ofs as int,
                ),
                hash_cut(tail0, buf@).1 == hash_cut(self.tail(), buf@.skip(ofs as int)).1,
            decreases len - ofs,
        {
            let ghost pre = *self;
            let window = vstd::slice::slice_subrange(buf, ofs, len);
            match bup_find_chunk_edge(&mut self.roll, window) {
                Some(count) => {
                    let ghost ofs0 = ofs as int;
                    let ghost mid_tail = pre.tail() + buf@.subrange(ofs as int, ofs + count);
                    let chunk_slice = vstd::slice::slice_subrange(buf, ofs, ofs + count);
                    sha_input(&mut self.sha256, chunk_slice);
                    ofs = ofs + count;
                    self.bytes_chunk = self.bytes_chunk + count;
                    self.bytes_total = self.bytes_total + count;
                    proof {
                        assert(self.tail() == mid_tail);
                        lemma_extend_tail(tail0, buf@, pre.pending_edges().skip(k), pre.tail(),
                            ofs - count, ofs as int, mid_tail);
                    }
                    self.edge_found(ofs);
                    proof {
                        assert(self.pending_edges().skip(k) =~= pre.pending_edges().skip(k).push(
                            (ofs as int, sha256_of(mid_tail)),
                        ));
                        lemma_cut_edge(tail0, buf@, pre.pending_edges().skip(k),
                            self.pending_edges().skip(k), mid_tail, ofs as int, self.tail());
                        assert(self.pending_edges().take(k) =~= old(self).pending_edges());
                        lemma_hash_cut_step(tail0, buf@, pre.pending_edges().skip(k), pre.tail(),
                            ofs0, count as int);
                        assert(self.pending_edges().skip(k) == pre.pending_edges().skip(k).push(
                            (ofs0 + count, sha256_of(mid_tail)),
                        ));
                        assert(self.tail() =~= Seq::<u8>::empty());
                    }
                },
                None => {
                    let ghost ofs0 = ofs as int;
                    let rest = vstd::slice::slice_subrange(buf, ofs, len);
                    sha_input(&mut self.sha256, rest);
                    let count = len - ofs;
                    self.bytes_chunk = self.bytes_chunk + count;
                    self.bytes_total = self.bytes_total + count;
                    proof {
                        lemma_extend_tail(tail0, buf@, pre.pending_edges().skip(k), pre.tail(),
                            ofs as int, len as int, self.tail());
                        assert(self.pending_edges() == pre.pending_edges());
                        assert(self.pending_edges().take(k) =~= old(self).pending_edges());
                        assert(bup_edge_of(pre.tail(), buf@.skip(ofs0)) is None) by {
                            assert(window@ =~= buf@.skip(ofs0));
                        }
                        reveal(hash_cut);
                        let rem = hash_cut(pre.tail(), buf@.skip(ofs0));
                        assert(rem.0 == Seq::<(int, Seq<u8>)>::empty());
                        assert(rem.1 == pre.tail() + buf@.skip(ofs0));
                        assert(self.tail() =~= rem.1) by {
                            assert(buf@.skip(ofs0) =~= buf@.subrange(ofs0, len as int));
                        }
                        lemma_hash_cut_empty(self.tail());
                        assert(buf@.skip(len as int) =~= Seq::<u8>::empty());
                        lemma_shift_zero(Seq::<(int, Seq<u8>)>::empty());
                        assert(shift_edges(Seq::<(int, Seq<u8>)>::empty(), ofs0)
                            =~= Seq::<(int, Seq<u8>)>::empty());
                        assert(shift_edges(hash_cut(self.tail(), buf@.skip(len as int)).0,
                            len as int) =~= Seq::<(int, Seq<u8>)>::empty());
                        assert(self.pending_edges().skip(k) + Seq::<(int, Seq<u8>)>::empty()
                            =~= self.pending_edges().skip(k));
                    }
                    ofs = len;
                },
            }
        }
        proof {
            assert(buf@.skip(len as int) =~= Seq::<u8>::empty());
            lemma_hash_cut_empty(self.tail());
            lemma_shift_zero(Seq::<(int, Seq<u8>)>::empty());
            assert(shift_edges(hash_cut(self.tail(), buf@.skip(len as int)).0, len as int)
                =~= Seq::<(int, Seq<u8>)>::empty());
            assert(hash_cut(tail0, buf@).0 =~= edges_view(self.edges@).skip(k));
            assert(hash_cut(tail0, buf@).1 == self.tail());
        }
        let mut out: Vec<Edge> = Vec::new();
        core::mem::swap(&mut out, &mut self.edges);
        proof {
            assert(buf@.subrange(0, len as int) =~= buf@);
            assert(edges_view(out@).take(k) == old(self).pending_edges());
            assert(self.pending_edges() =~= Seq::<(int, Seq<u8>)>::empty());
        }
        out
    }

    /// If any bytes are pending, close them as a final chunk with a
    /// synthetic edge at offset zero; return all edges not yet handed out.
    /// Idempotent once the tail is empty.
    pub fn finish(&mut self) -> (r: Vec<Edge>)
        requires
            old(self).wf(),
        ensures
            final(self).wf(),
            final(self).pending_edges().len() == 0,
            final(self).tail() == Seq::<u8>::empty(),
            final(self).total() == old(self).total(),
            old(self).tail().len() == 0 ==> edges_view(r@) == old(self).pending_edges(),
            old(self).tail().len() > 0 ==> edges_view(r@) == old(self).pending_edges().push(
                (0, sha256_of(old(self).tail())),
            ) && sha256_of(old(self).tail()).len() == 32,
    {
        if self.bytes_chunk != 0 {
            self.edge_found(0);
        }
        let mut out: Vec<Edge> = Vec::new();
        core::mem::swap(&mut out, &mut self.edges);
        proof {
            if old(self).tail().len() == 0 {
                assert(old(self).tail() =~= Seq::<u8>::empty());
            }
            assert(self.pending_edges() =~= Seq::<(int, Seq<u8>)>::empty());
        }
        out
    }
}

/// One boundary step of the hash-dictated cut: when the rolling hash closes
/// a chunk of `count` bytes at offset `ofs0` of `buf`, the cut of the whole
/// buffer is the edges so far, the new edge, then the cut of the rest.
proof fn lemma_hash_cut_step(
    tail0: Seq<u8>,
    buf: Seq<u8>,
    done: Seq<(int, Seq<u8>)>,
    cur_tail: Seq<u8>,
    ofs0: int,
    count: int,
)
    requires
        0 <= ofs0,
        1 <= count,
        ofs0 + count <= buf.len(),
        hash_cut(tail0, buf).0 == done + shift_edges(hash_cut(cur_tail, buf.skip(ofs0)).0, ofs0),
        hash_cut(tail0, buf).1 == hash_cut(cur_tail, buf.skip(ofs0)).1,
        bup_edge_of(cur_tail, buf.skip(ofs0)) == Some(count),
    ensures
        hash_cut(tail0, buf).0 == done.push(
            (ofs0 + count, sha256_of(cur_tail + buf.subrange(ofs0, ofs0 + count))),
        ) + shift_edges(hash_cut(Seq::<u8>::empty(), buf.skip(ofs0 + count)).0, ofs0 + count),
        hash_cut(tail0, buf).1 == hash_cut(Seq::<u8>::empty(), buf.skip(ofs0 + count)).1,
{
    reveal(hash_cut);
    let rem = hash_cut(cur_tail, buf.skip(ofs0));
    assert(1 <= count && count <= buf.skip(ofs0).len());
    assert(buf.skip(ofs0).take(count) =~= buf.subrange(ofs0, ofs0 + count));
    assert(buf.skip(ofs0).skip(count) =~= buf.skip(ofs0 + count));
    let first = (count, sha256_of(cur_tail + buf.subrange(ofs0, ofs0 + count)));
    let rest = hash_cut(Seq::<u8>::empty(), buf.skip(ofs0 + count));
    assert(rem.0 == seq![first] + shift_edges(rest.0, count));
    assert(rem.1 == rest.1);
    lemma_shift_concat(seq![first], shift_edges(rest.0, count), ofs0);
    lemma_shift_shift(rest.0, count, ofs0);
    assert(shift_edges(seq![first], ofs0) =~= seq![(ofs0 + count, first.1)]);
    assert(shift_edges(shift_edges(rest.0, count), ofs0) =~= shift_edges(rest.0, ofs0 + count));
    assert(done + (seq![(ofs0 + count, first.1)] + shift_edges(rest.0, ofs0 + count)) =~= done.push(
        (ofs0 + count, first.1),
    ) + shift_edges(rest.0, ofs0 + count));
}

/// Extending the unconsumed region of a cut from `upto0` to `upto1` extends
/// the tail by the bytes in between.
pub(crate) proof fn lemma_extend_tail(
    tail0: Seq<u8>,
    buf: Seq<u8>,
    es: Seq<(int, Seq<u8>)>,
    tail_a: Seq<u8>,
    upto0: int,
    upto1: int,
    tail_b: Seq<u8>,
)
    requires
        cuts_upto(tail0, buf, es, tail_a, upto0),
        0 <= upto0 <= upto1 <= buf.len(),
        tail_b == tail_a + buf.subrange(upto0, upto1),
    ensures
        cuts_upto(tail0, buf, es, tail_b, upto1),
{
    if es.len() == 0 {
        assert(tail_b =~= tail0 + buf.subrange(0, upto1));
    } else {
        assert(tail_b =~= buf.subrange(es[es.len() - 1].0, upto1));
    }
}

/// Closing the pending chunk at offset `upto` with its digest extends a cut
/// whose unconsumed region ends at `upto` and leaves an empty tail.
pub(crate) proof fn lemma_cut_edge(
    tail0: Seq<u8>,
    buf: Seq<u8>,
    es: Seq<(int, Seq<u8>)>,
    es2: Seq<(int, Seq<u8>)>,
    tail1: Seq<u8>,
    upto: int,
    tail2: Seq<u8>,
)
    requires
        cuts_upto(tail0, buf, es, tail1, upto),
        tail1.len() > 0,
        es2 == es.push((upto, sha256_of(tail1))),
        sha256_of(tail1).len() == 32,
        0 < upto <= buf.len(),
        tail2.len() == 0,
    ensures
        cuts_upto(tail0, buf, es2, tail2, upto),
{
    let n = es.len() as int;
    assert(forall|i: int| 0 <= i < n ==> es2[i] == es[i]);
    assert(edge_bounds(es2, upto)) by {
        assert(es2[n].0 == upto);
        if n > 0 {
            assert(es[n - 1].0 <= upto);
            if es[n - 1].0 == upto {
                assert(tail1 == buf.subrange(es[n - 1].0, upto));
                assert(tail1.len() == 0);
                assert(false);
            }
        }
    }
    assert forall|i: int| 0 <= i < es2.len() implies (#[trigger] es2[i]).1 == sha256_of(
        piece(tail0, buf, es2, i),
    ) && es2[i].1.len() == 32 by {
        if i < n {
            assert(piece(tail0, buf, es2, i) == piece(tail0, buf, es, i));
        } else {
            if n == 0 {
                assert(tail1 == tail0 + buf.subrange(0, upto));
                assert(piece(tail0, buf, es2, i) == tail0 + buf.subrange(0, es2[0].0));
            } else {
                assert(tail1 == buf.subrange(es[n - 1].0, upto));
                assert(piece(tail0, buf, es2, i) == buf.subrange(es2[n - 1].0, es2[n].0));
            }
            assert(es2[i].1 == sha256_of(tail1));
        }
    }
    assert(tail2 =~= buf.subrange(es2[es2.len() - 1].0, upto));
}

} // verus!
