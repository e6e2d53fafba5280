//! The repository: a content-addressed store of encrypted chunk objects,
//! keyed by chunk kind and SHA-256 digest, together with the store and
//! restore pipelines that operate on it.

use vstd::prelude::*;

use crate::boxcrypt::{box_gen_keypair, box_open, box_open_of, box_pk_of, box_seal};
use crate::hex::hex_bytes;
use crate::sha::sha256_of;

verus! {

/// The kind of a stored chunk: an index chunk holds child digests, a data
/// chunk holds a slice of the original stream.
#[derive(Copy, Clone, Debug, PartialEq, Eq, Structural)]
pub enum ChunkType {
    Index,
    Data,
}

/// Why a restore failed.
#[derive(Copy, Clone, Debug, PartialEq, Eq, Structural)]
pub enum LoadError {
    /// No object is stored under the digest, in either kind.
    NotFound,
    /// An object failed authenticated decryption: corruption or a wrong key.
    CryptoFailure,
    /// An index chunk's plaintext length is zero or not a multiple of 32.
    MalformedIndex,
    /// The index tree is deeper than the restore walker's depth bound.
    TooDeep,
}

/// The map that an association list of (digest, object) entries denotes.
pub open spec fn entries_map(s: Seq<(Vec<u8>, Vec<u8>)>) -> Map<Seq<u8>, Seq<u8>>
    decreases s.len(),
{
    if s.len() == 0 {
        Map::empty()
    } else {
        entries_map(s.drop_last()).insert(s.last().0@, s.last().1@)
    }
}

/// No digest occurs twice among the entries.
pub open spec fn keys_unique(s: Seq<(Vec<u8>, Vec<u8>)>) -> bool {
    forall|i: int, j: int| 0 <= i < j < s.len() ==> (#[trigger] s[i]).0@ != (#[trigger] s[j]).0@
}

/// Every digest among the entries is 32 bytes.
pub open spec fn keys_len32(s: Seq<(Vec<u8>, Vec<u8>)>) -> bool {
    forall|i: int| 0 <= i < s.len() ==> (#[trigger] s[i]).0@.len() == 32
}

/// A key of the denoted map names some entry, so it is 32 bytes when all
/// entry digests are.
proof fn lemma_contains_len32(s: Seq<(Vec<u8>, Vec<u8>)>, k: Seq<u8>)
    requires
        keys_len32(s),
        entries_map(s).contains_key(k),
    ensures
        k.len() == 32,
    decreases s.len(),
{
    if s.len() > 0 && k != s.last().0@ {
        lemma_contains_len32(s.drop_last(), k);
    }
}

/// A key of some entry is in the denoted map, with the entry's value if the
/// keys are unique.
proof fn lemma_entries_get(s: Seq<(Vec<u8>, Vec<u8>)>, i: int)
    requires
        keys_unique(s),
        0 <= i < s.len(),
    ensures
        entries_map(s).contains_key(s[i].0@),
        entries_map(s)[s[i].0@] == s[i].1@,
    decreases s.len(),
{
    if i + 1 == s.len() {
    } else {
        lemma_entries_get(s.drop_last(), i);
        assert(s.drop_last()[i] == s[i]);
        assert(s[i].0@ != s.last().0@);
    }
}

/// A key matching no entry is not in the denoted map.
proof fn lemma_entries_absent(s: Seq<(Vec<u8>, Vec<u8>)>, k: Seq<u8>)
    requires
        forall|i: int| 0 <= i < s.len() ==> (#[trigger] s[i]).0@ != k,
    ensures
        !entries_map(s).contains_key(k),
    decreases s.len(),
{
    if s.len() > 0 {
        lemma_entries_absent(s.drop_last(), k);
    }
}

/// The denoted map has as many keys as the list has entries, when keys are
/// unique.
proof fn lemma_entries_len(s: Seq<(Vec<u8>, Vec<u8>)>)
    requires
        keys_unique(s),
    ensures
        entries_map(s).dom().finite(),
        entries_map(s).dom().len() == s.len(),
    decreases s.len(),
{
    if s.len() > 0 {
        lemma_entries_len(s.drop_last());
        assert(forall|i: int|
            0 <= i < s.drop_last().len() ==> (#[trigger] s.drop_last()[i]).0@ != s.last().0@);
        lemma_entries_absent(s.drop_last(), s.last().0@);
    }
}

/// Byte-for-byte equality of two byte strings.
pub fn bytes_eq(a: &[u8], b: &[u8]) -> (r: bool)
    ensures
        r == (a@ == b@),
{
    if a.len() != b.len() {
        return false;
    }
    let mut i: usize = 0;
    while i < a.len()
        invariant
            i <= a@.len(),
            a@.len() == b@.len(),
            forall|j: int| 0 <= j < i ==> a@[j] == b@[j],
        decreases a@.len() - i,
    {
        if a[i] != b[i] {
            return false;
        }
        i = i + 1;
    }
    proof {
        assert(a@ =~= b@);
    }
    true
}

/// Look a digest up in an entry list.
fn assoc_get<'a>(s: &'a Vec<(Vec<u8>, Vec<u8>)>, k: &[u8]) -> (r: Option<&'a Vec<u8>>)
    requires
        keys_unique(s@),
    ensures
        match r {
            Some(v) => entries_map(s@).contains_key(k@) && entries_map(s@)[k@] == v@,
            None => !entries_map(s@).contains_key(k@),
        },
{
    let mut i: usize = 0;
    while i < s.len()
        invariant
            keys_unique(s@),
            i <= s@.len(),
            forall|j: int| 0 <= j < i ==> (#[trigger] s@[j]).0@ != k@,
        decreases s@.len() - i,
    {
        if bytes_eq(s[i].0.as_slice(), k) {
            proof {
                lemma_entries_get(s@, i as int);
            }
            return Some(&s[i].1);
        }
        i = i + 1;
    }
    proof {
        lemma_entries_absent(s@, k@);
    }
    None
}

/// Insert an entry unless its digest is already present; say whether it was
/// added.
fn assoc_insert_absent(s: &mut Vec<(Vec<u8>, Vec<u8>)>, k: Vec<u8>, v: Vec<u8>) -> (added: bool)
    requires
        keys_unique(old(s)@),
        keys_len32(old(s)@),
        k@.len() == 32,
    ensures
        keys_unique(final(s)@),
        keys_len32(final(s)@),
        added == !entries_map(old(s)@).contains_key(k@),
        added ==> entries_map(final(s)@) == entries_map(old(s)@).insert(k@, v@) && final(s)@.len()
            == old(s)@.len() + 1,
        !added ==> final(s)@ == old(s)@,
        entries_map(final(s)@).contains_key(k@),
    {
        let present = assoc_get(s, k.as_slice()).is_some();
        if present {
            return false;
        }
        proof {
            if exists|i: int| 0 <= i < s@.len() && (#[trigger] s@[i]).0@ == k@ {
                let i = choose|i: int| 0 <= i < s@.len() && (#[trigger] s@[i]).0@ == k@;
                lemma_entries_get(s@, i);
                assert(false);
            }
        }
        s.push((k, v));
        proof {
            assert(s@.drop_last() =~= old(s)@);
            assert(entries_map(s@) == entries_map(old(s)@).insert(s@.last().0@, s@.last().1@));
            lemma_entries_get(s@, s@.len() - 1);
        }
        true
    }

/// One stored object seals plaintext `pt` under digest `d` for the holder of
/// the secret key behind `pk`: a 32-byte ephemeral public key, then the
/// ciphertext, 16 bytes longer than the plaintext; the nonce is the first 24
/// bytes of the digest.
pub open spec fn stores_plain(obj: Seq<u8>, d: Seq<u8>, pk: Seq<u8>, pt: Seq<u8>) -> bool {
    &&& obj.len() == pt.len() + 48
    &&& forall|rsk: Seq<u8>|
        box_pk_of(rsk) == pk ==> box_open_of(obj.skip(32), d.take(24), obj.take(32), rsk)
            == Some(pt)
}

/// A stored object is good for its digest: it seals some plaintext whose
/// SHA-256 digest is the digest it is stored under.
pub open spec fn obj_good(obj: Seq<u8>, d: Seq<u8>, pk: Seq<u8>) -> bool {
    exists|pt: Seq<u8>| stores_plain(obj, d, pk, pt) && sha256_of(pt) == d
}

/// Seal one chunk: generate an ephemeral keypair, derive the nonce from the
/// digest, seal the plaintext for the repository key, and prepend the
/// ephemeral public key.
pub fn encrypt_chunk(plain: &[u8], digest: &[u8], pub_key: &[u8]) -> (r: Vec<u8>)
    requires
        digest@.len() == 32,
        pub_key@.len() == 32,
    ensures
        stores_plain(r@, digest@, pub_key@, plain@),
{
    let (mut eph_pub, eph_sec) = box_gen_keypair();
    let nonce = vstd::slice::slice_subrange(digest, 0, 24);
    let mut cipher = box_seal(plain, nonce, pub_key, eph_sec.as_slice());
    let ghost eph_pub0 = eph_pub@;
    let ghost cipher0 = cipher@;
    eph_pub.append(&mut cipher);
    proof {
        assert(eph_pub@.skip(32) =~= cipher0);
        assert(eph_pub@.take(32) =~= eph_pub0);
        assert(nonce@ == digest@.take(24));
    }
    eph_pub
}

/// What opening a stored object under a digest with a secret key yields:
/// split off the 32-byte ephemeral key, rebuild the nonce from the digest,
/// open the box; `None` on a short object or an authentication failure.
pub open spec fn spec_decrypt(obj: Seq<u8>, d: Seq<u8>, sk: Seq<u8>) -> Option<Seq<u8>> {
    if obj.len() < 32 {
        None
    } else {
        box_open_of(obj.skip(32), d.take(24), obj.take(32), sk)
    }
}

/// Open one stored object under a digest.
pub fn decrypt_chunk(obj: &[u8], digest: &[u8], sec_key: &[u8]) -> (r: Option<Vec<u8>>)
    requires
        digest@.len() == 32,
        sec_key@.len() == 32,
    ensures
        match r {
            Some(m) => spec_decrypt(obj@, digest@, sec_key@) == Some(m@),
            None => spec_decrypt(obj@, digest@, sec_key@) is None,
        },
{
    if obj.len() < 32 {
        return None;
    }
    let eph_pub = vstd::slice::slice_subrange(obj, 0, 32);
    let cipher = vstd::slice::slice_subrange(obj, 32, obj.len());
    let nonce = vstd::slice::slice_subrange(digest, 0, 24);
    let r = box_open(cipher, nonce, eph_pub, sec_key);
    proof {
        assert(cipher@ =~= obj@.skip(32));
        assert(nonce@ =~= digest@.take(24));
    }
    r
}

/// A sealed chunk opens back to its plaintext under any secret key that the
/// repository public key belongs to.
pub proof fn lemma_seal_open(obj: Seq<u8>, d: Seq<u8>, pk: Seq<u8>, pt: Seq<u8>, sk: Seq<u8>)
    requires
        stores_plain(obj, d, pk, pt),
        box_pk_of(sk) == pk,
    ensures
        spec_decrypt(obj, d, sk) == Some(pt),
{
}

/// An in-memory image of the repository: the public key and, for each chunk
/// kind, the stored objects keyed by digest.
pub struct Repo {
    pub_key: Vec<u8>,
    data: Vec<(Vec<u8>, Vec<u8>)>,
    index: Vec<(Vec<u8>, Vec<u8>)>,
}

impl Repo {
    /// The repository public key.
    pub closed spec fn pk(self) -> Seq<u8> {
        self.pub_key@
    }

    /// The stored data chunks: digest to object bytes.
    pub closed spec fn data_map(self) -> Map<Seq<u8>, Seq<u8>> {
        entries_map(self.data@)
    }

    /// The stored index chunks: digest to object bytes.
    pub closed spec fn index_map(self) -> Map<Seq<u8>, Seq<u8>> {
        entries_map(self.index@)
    }

    /// The map that holds chunks of `kind`.
    pub open spec fn kind_map(self, kind: ChunkType) -> Map<Seq<u8>, Seq<u8>> {
        match kind {
            ChunkType::Data => self.data_map(),
            ChunkType::Index => self.index_map(),
        }
    }

    /// Well-formed: digests unique and 32 bytes per kind, public key 32
    /// bytes.
    pub closed spec fn wf(self) -> bool {
        &&& keys_unique(self.data@)
        &&& keys_unique(self.index@)
        &&& keys_len32(self.data@)
        &&& keys_len32(self.index@)
        &&& self.pub_key@.len() == 32
    }

    /// Every stored object is good for its digest: path-digest agreement.
    pub open spec fn objects_good(self) -> bool {
        &&& forall|d: Seq<u8>|
            self.data_map().contains_key(d) ==> obj_good(#[trigger] self.data_map()[d], d, self.pk())
        &&& forall|d: Seq<u8>|
            self.index_map().contains_key(d) ==> obj_good(
                #[trigger] self.index_map()[d],
                d,
                self.pk(),
            )
    }

    /// An empty repository for a given public key.
    pub fn new(pub_key: Vec<u8>) -> (r: Self)
        requires
            pub_key@.len() == 32,
        ensures
            r.wf(),
            r.pk() == pub_key@,
            r.data_map() == Map::<Seq<u8>, Seq<u8>>::empty(),
            r.index_map() == Map::<Seq<u8>, Seq<u8>>::empty(),
            r.objects_good(),
    {
        let r = Repo { pub_key, data: Vec::new(), index: Vec::new() };
        r
    }

    /// The repository public key, as bytes.
    pub fn pub_key_bytes(&self) -> (r: &Vec<u8>)
        ensures
            r@ == self.pk(),
    {
        &self.pub_key
    }

    /// Number of stored data chunks.
    pub fn data_count(&self) -> (r: usize)
        requires
            self.wf(),
        ensures
            r == self.data_map().dom().len(),
    {
        proof {
            lemma_entries_len(self.data@);
        }
        self.data.len()
    }

    /// Number of stored index chunks.
    pub fn index_count(&self) -> (r: usize)
        requires
            self.wf(),
        ensures
            r == self.index_map().dom().len(),
    {
        proof {
            lemma_entries_len(self.index@);
        }
        self.index.len()
    }

    /// Digest and object of stored data entry `i`, in insertion order.
    pub fn data_entry(&self, i: usize) -> (r: (&Vec<u8>, &Vec<u8>))
        requires
            self.wf(),
            i < self.data_map().dom().len(),
        ensures
            self.data_map().contains_key(r.0@),
            self.data_map()[r.0@] == r.1@,
    {
        proof {
            lemma_entries_len(self.data@);
            lemma_entries_get(self.data@, i as int);
        }
        (&self.data[i].0, &self.data[i].1)
    }

    /// Digest and object of stored index entry `i`, in insertion order.
    pub fn index_entry(&self, i: usize) -> (r: (&Vec<u8>, &Vec<u8>))
        requires
            self.wf(),
            i < self.index_map().dom().len(),
        ensures
            self.index_map().contains_key(r.0@),
            self.index_map()[r.0@] == r.1@,
    {
        proof {
            lemma_entries_len(self.index@);
            lemma_entries_get(self.index@, i as int);
        }
        (&self.index[i].0, &self.index[i].1)
    }

    /// The stored object under a digest and kind, if any.
    pub fn get_object<'a>(&'a self, digest: &[u8], kind: ChunkType) -> (r: Option<&'a Vec<u8>>)
        requires
            self.wf(),
        ensures
            match r {
                Some(v) => self.kind_map(kind).contains_key(digest@) && self.kind_map(kind)[digest@]
                    == v@ && digest@.len() == 32,
                None => !self.kind_map(kind).contains_key(digest@),
            },
    {
        let r = match kind {
            ChunkType::Data => assoc_get(&self.data, digest),
            ChunkType::Index => assoc_get(&self.index, digest),
        };
        proof {
            if r is Some {
                match kind {
                    ChunkType::Data => lemma_contains_len32(self.data@, digest@),
                    ChunkType::Index => lemma_contains_len32(self.index@, digest@),
                }
            }
        }
        r
    }

    /// Store an object under a digest and kind unless one is already there;
    /// say whether it was added. The other kind is untouched.
    pub fn insert_object(&mut self, digest: Vec<u8>, obj: Vec<u8>, kind: ChunkType) -> (added:
        bool)
        requires
            old(self).wf(),
            digest@.len() == 32,
        ensures
            final(self).wf(),
            final(self).pk() == old(self).pk(),
            added == !old(self).kind_map(kind).contains_key(digest@),
            added ==> final(self).kind_map(kind) == old(self).kind_map(kind).insert(
                digest@,
                obj@,
            ),
            !added ==> final(self).kind_map(kind) == old(self).kind_map(kind),
            final(self).kind_map(kind).contains_key(digest@),
            match kind {
                ChunkType::Data => final(self).index_map() == old(self).index_map(),
                ChunkType::Index => final(self).data_map() == old(self).data_map(),
            },
    {
        match kind {
            ChunkType::Data => assoc_insert_absent(&mut self.data, digest, obj),
            ChunkType::Index => assoc_insert_absent(&mut self.index, digest, obj),
        }
    }

    /// Store one chunk unless its digest is already present: seal the
    /// plaintext and file the object under the digest. A digest already
    /// present is a deduplication hit and leaves the repository unchanged.
    pub fn store_chunk(&mut self, digest: &Vec<u8>, plain: &Vec<u8>, kind: ChunkType) -> (added:
        bool)
        requires
            old(self).wf(),
            digest@.len() == 32,
        ensures
            final(self).wf(),
            final(self).pk() == old(self).pk(),
            added == !old(self).kind_map(kind).contains_key(digest@),
            added ==> exists|obj: Seq<u8>|
                final(self).kind_map(kind) == old(self).kind_map(kind).insert(digest@, obj)
                    && stores_plain(obj, digest@, old(self).pk(), plain@),
            !added ==> final(self).kind_map(kind) == old(self).kind_map(kind),
            final(self).kind_map(kind).contains_key(digest@),
            match kind {
                ChunkType::Data => final(self).index_map() == old(self).index_map(),
                ChunkType::Index => final(self).data_map() == old(self).data_map(),
            },
    {
        if self.get_object(digest.as_slice(), kind).is_some() {
            return false;
        }
        let obj = encrypt_chunk(plain.as_slice(), digest.as_slice(), self.pub_key.as_slice());
        let key = vstd::slice::slice_to_vec(digest.as_slice());
        let added = self.insert_object(key, obj, kind);
        added
    }

    /// Classify a digest by probing for an index chunk first, then a data
    /// chunk, as the restore walker does.
    pub fn chunk_type(&self, digest: &[u8]) -> (r: Option<ChunkType>)
        requires
            self.wf(),
        ensures
            r == if self.index_map().contains_key(digest@) {
                Some(ChunkType::Index)
            } else if self.data_map().contains_key(digest@) {
                Some(ChunkType::Data)
            } else {
                None::<ChunkType>
            },
    {
        if self.get_object(digest, ChunkType::Index).is_some() {
            Some(ChunkType::Index)
        } else if self.get_object(digest, ChunkType::Data).is_some() {
            Some(ChunkType::Data)
        } else {
            None
        }
    }
}

/// Create a fresh repository: generate a keypair, keep the public key in the
/// repository, and hand the secret key back to the caller.
pub fn repo_init() -> (r: (Repo, Vec<u8>))
    ensures
        r.0.wf(),
        r.0.objects_good(),
        r.0.data_map() == Map::<Seq<u8>, Seq<u8>>::empty(),
        r.0.index_map() == Map::<Seq<u8>, Seq<u8>>::empty(),
        r.1@.len() == 32,
        r.0.pk().len() == 32,
        r.0.pk() == box_pk_of(r.1@),
{
    let (pk, sk) = box_gen_keypair();
    (Repo::new(pk), sk)
}

/// The relative storage path of a chunk: the kind's directory, the hex of
/// the digest's first byte, the hex of its second byte, and the full digest
/// hex, separated by slashes.
pub open spec fn path_of(kind: ChunkType, d: Seq<u8>) -> Seq<u8> {
    dir_of(kind) + seq![47u8] + hex_bytes(d.subrange(0, 1)) + seq![47u8] + hex_bytes(
        d.subrange(1, 2),
    ) + seq![47u8] + hex_bytes(d)
}

/// The directory that holds a kind's chunks, as ASCII bytes.
pub open spec fn dir_of(kind: ChunkType) -> Seq<u8> {
    match kind {
        ChunkType::Data => seq![99u8, 104u8, 117u8, 110u8, 107u8, 115u8],
        ChunkType::Index => seq![105u8, 110u8, 100u8, 101u8, 120u8],
    }
}

/// Compute the relative storage path of a digest, as ASCII bytes:
/// `chunks/<d0>/<d1>/<digest hex>` for data, `index/...` for index chunks.
pub fn digest_to_path(digest: &[u8], chunk_type: ChunkType) -> (r: Vec<u8>)
    requires
        digest@.len() >= 2,
    ensures
        r@ == path_of(chunk_type, digest@),
{
    let mut out: Vec<u8> = Vec::new();
    match chunk_type {
        ChunkType::Data => {
            out.push(99);
            out.push(104);
            out.push(117);
            out.push(110);
            out.push(107);
            out.push(115);
            proof {
                assert(out@ =~= dir_of(ChunkType::Data));
            }
        },
        ChunkType::Index => {
            out.push(105);
            out.push(110);
            out.push(100);
            out.push(101);
            out.push(120);
            proof {
                assert(out@ =~= dir_of(ChunkType::Index));
            }
        },
    }
    out.push(47);
    let mut h0 = crate::hex::to_hex(vstd::slice::slice_subrange(digest, 0, 1));
    out.append(&mut h0);
    out.push(47);
    let mut h1 = crate::hex::to_hex(vstd::slice::slice_subrange(digest, 1, 2));
    out.append(&mut h1);
    out.push(47);
    let mut h = crate::hex::to_hex(vstd::slice::slice_subrange(digest, 0, digest.len()));
    out.append(&mut h);
    proof {
        assert(digest@.subrange(0, digest@.len() as int) =~= digest@);
        assert(out@ =~= path_of(chunk_type, digest@));
    }
    out
}

} // verus!
