//! Chunk writer: the consuming stage of the store pipeline. It buffers the
//! bytes that belong to a chunk not yet closed, and when a message carries
//! edges it cuts the buffered bytes plus the current buffer into chunk
//! plaintexts, one per edge, in order.

use vstd::prelude::*;

use crate::chunker::{edges_view, piece, Edge};

verus! {

/// Offsets of `es` are nondecreasing and lie within a buffer of length `len`.
pub open spec fn writer_edges_ok(es: Seq<(int, Seq<u8>)>, len: int) -> bool {
    &&& forall|i: int| 0 <= i < es.len() ==> 0 <= (#[trigger] es[i]).0 <= len
    &&& forall|i: int| 0 <= i && i + 1 < es.len() ==> (#[trigger] es[i]).0 <= es[i + 1].0
}

/// Buffers pending bytes between messages and assembles chunk plaintexts.
pub struct ChunkWriter {
    pending: Vec<u8>,
}

impl ChunkWriter {
    /// Bytes received so far that belong to a chunk not yet closed.
    pub closed spec fn pending_bytes(self) -> Seq<u8> {
        self.pending@
    }

    /// A fresh writer with no pending bytes.
    pub fn new() -> (r: Self)
        ensures
            r.pending_bytes() == Seq::<u8>::empty(),
    {
        ChunkWriter { pending: Vec::new() }
    }

    /// Handle one message of the pipeline. With no edges, `data` is simply
    /// retained. Otherwise the pending bytes followed by `data` are cut at
    /// the edge offsets: the plaintext of chunk `i` is returned at position
    /// `i`, and the bytes of `data` after the last edge are retained.
    pub fn handle_data(&mut self, data: &[u8], edges: &Vec<Edge>) -> (r: Vec<Vec<u8>>)
        requires
            writer_edges_ok(edges_view(edges@), data@.len() as int),
        ensures
            edges@.len() == 0 ==> final(self).pending_bytes() == old(self).pending_bytes()
                + data@ && r@.len() == 0,
            edges@.len() > 0 ==> {
                &&& r@.len() == edges@.len()
                &&& (forall|i: int|
                    0 <= i < r@.len() ==> (#[trigger] r@[i])@ == piece(
                        old(self).pending_bytes(),
                        data@,
                        edges_view(edges@),
                        i,
                    ))
                &&& final(self).pending_bytes() == data@.skip(
                    edges_view(edges@)[edges@.len() - 1].0,
                )
            },
    {
        let ghost pend0 = self.pending@;
        let ghost es = edges_view(edges@);
        if edges.len() == 0 {
            let mut tail = vstd::slice::slice_to_vec(data);
            self.pending.append(&mut tail);
            return Vec::new();
        }
        let mut out: Vec<Vec<u8>> = Vec::new();
        let mut prev_ofs: usize = 0;
        let mut i: usize = 0;
        while i < edges.len()
            invariant
                0 < edges@.len(),
                i <= edges@.len(),
                es == edges_view(edges@),
                writer_edges_ok(es, data@.len() as int),
                prev_ofs == if i == 0 { 0int } else { es[i - 1].0 },
                prev_ofs <= data@.len(),
                out@.len() == i,
                forall|j: int| 0 <= j < i ==> (#[trigger] out@[j])@ == piece(pend0, data@, es, j),
                self.pending@ == if i == 0 { pend0 } else { Seq::<u8>::empty() },
            decreases edges@.len() - i,
        {
            let ofs = edges[i].0;
            proof {
                assert(es[i as int].0 == ofs as int);
                if i > 0 {
                    assert(es[i - 1].0 <= es[i as int].0);
                }
            }
            let mut whole: Vec<u8> = Vec::new();
            core::mem::swap(&mut whole, &mut self.pending);
            let mut part = vstd::slice::slice_to_vec(
                vstd::slice::slice_subrange(data, prev_ofs, ofs),
            );
            whole.append(&mut part);
            proof {
                if i == 0 {
                    assert(whole@ =~= piece(pend0, data@, es, 0));
                } else {
                    assert(whole@ =~= piece(pend0, data@, es, i as int));
                }
            }
            out.push(whole);
            prev_ofs = ofs;
            i = i + 1;
        }
        if prev_ofs != data.len() {
            let mut sfx = vstd::slice::slice_to_vec(
                vstd::slice::slice_subrange(data, prev_ofs, data.len()),
            );
            self.pending.append(&mut sfx);
        }
        proof {
            assert(self.pending@ =~= data@.skip(es[es.len() - 1].0));
        }
        out
    }
}

} // verus!
