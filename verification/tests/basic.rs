use rdedup::chunker::Chunker;
use rdedup::command::Command;
use rdedup::repo::{digest_to_path, repo_init, ChunkType, LoadError, Repo};
use rdedup::restore::restore_data;
use rdedup::store::store_data;
use rdedup::{from_hex, to_hex};

use crypto::digest::Digest;

const HELLO_DIGEST: &str = "b94d27b9934d3e08a52e52d7da7dabfac484efe37a5380ee9088f7ace2efcde9";

fn sha256_ref(data: &[u8]) -> Vec<u8> {
    let mut h = crypto::sha2::Sha256::new();
    h.input(data);
    let mut out = vec![0u8; 32];
    h.result(&mut out);
    out
}

fn lcg_bytes(len: usize, seed: u64) -> Vec<u8> {
    let mut x = seed;
    let mut out = Vec::with_capacity(len);
    for _ in 0..len {
        x = x.wrapping_mul(6364136223846793005).wrapping_add(1442695040888963407);
        out.push((x >> 33) as u8);
    }
    out
}

#[test]
fn hex_encodes_lowercase_pairs() {
    assert_eq!(to_hex(&[0x00, 0xab, 0xff, 0x10]), b"00abff10".to_vec());
    assert_eq!(to_hex(&[]), Vec::<u8>::new());
}

#[test]
fn hex_decode_inverts_encode() {
    let bytes = vec![0u8, 1, 2, 0x7f, 0x80, 0xff];
    let enc = to_hex(&bytes);
    assert_eq!(from_hex(&enc), Some(bytes));
    assert_eq!(from_hex(b"0g"), None);
    assert_eq!(from_hex(b"abc"), None);
    assert_eq!(from_hex(b"AB"), None);
    assert_eq!(from_hex(b""), Some(Vec::new()));
}

#[test]
fn path_follows_digest_fanout() {
    let digest: Vec<u8> = (0u8..32).collect();
    let path = digest_to_path(&digest, ChunkType::Data);
    let mut expected = b"chunks/00/01/".to_vec();
    expected.extend_from_slice(&to_hex(&digest));
    assert_eq!(path, expected);
    let ipath = digest_to_path(&digest, ChunkType::Index);
    assert!(ipath.starts_with(b"index/00/01/"));
}

#[test]
fn init_emits_64_hex_char_keys() {
    let (repo, sec_key) = repo_init();
    assert_eq!(sec_key.len(), 32);
    assert_eq!(to_hex(&sec_key).len(), 64);
    assert_eq!(to_hex(repo.pub_key_bytes()).len(), 64);
    assert_eq!(repo.data_count(), 0);
    assert_eq!(repo.index_count(), 0);
}

#[test]
fn chunker_digests_the_tail() {
    let mut chunker = Chunker::new();
    let edges = chunker.input(b"hello world");
    let mut all = edges;
    all.extend(chunker.finish());
    // reconstruct the stream from the edge-delimited slices
    let mut rebuilt = Vec::new();
    let mut prev = 0usize;
    for (ofs, _) in &all {
        if *ofs > prev {
            rebuilt.extend_from_slice(&b"hello world"[prev..*ofs]);
        }
        prev = *ofs;
    }
    // an 11-byte stream ends in a single synthetic edge at offset 0
    assert!(rebuilt.is_empty());
    assert_eq!(all.len(), 1);
    assert_eq!(all[0].0, 0);
    assert_eq!(all[0].1, sha256_ref(b"hello world"));
    let again = chunker.finish();
    assert!(again.is_empty());
}

#[test]
fn save_hello_world_roots_at_its_digest() {
    let (mut repo, sec_key) = repo_init();
    let root = store_data(&mut repo, b"hello world", ChunkType::Data);
    assert_eq!(to_hex(&root), HELLO_DIGEST.as_bytes().to_vec());
    assert_eq!(repo.chunk_type(&root), Some(ChunkType::Data));
    assert_eq!(repo.data_count(), 1);
    assert_eq!(repo.index_count(), 0);
    let path = digest_to_path(&root, ChunkType::Data);
    let mut expected = b"chunks/b9/4d/".to_vec();
    expected.extend_from_slice(HELLO_DIGEST.as_bytes());
    assert_eq!(path, expected);
    let back = restore_data(&repo, &root, &sec_key).unwrap();
    assert_eq!(back, b"hello world".to_vec());
}

#[test]
fn save_empty_stream_roots_at_empty_digest() {
    let (mut repo, sec_key) = repo_init();
    let root = store_data(&mut repo, b"", ChunkType::Data);
    assert!(root.is_empty());
    assert_eq!(repo.data_count(), 0);
    assert_eq!(repo.index_count(), 0);
    let back = restore_data(&repo, &root, &sec_key).unwrap();
    assert!(back.is_empty());
}

#[test]
fn saving_twice_adds_nothing() {
    let (mut repo, _sec_key) = repo_init();
    let zeros = vec![0u8; 1 << 20];
    let root1 = store_data(&mut repo, &zeros, ChunkType::Data);
    let data1 = repo.data_count();
    let index1 = repo.index_count();
    let root2 = store_data(&mut repo, &zeros, ChunkType::Data);
    assert_eq!(root1, root2);
    assert_eq!(repo.data_count(), data1);
    assert_eq!(repo.index_count(), index1);
    assert_eq!(to_hex(&root1).len(), 64);
}

#[test]
fn multi_chunk_stream_builds_an_index_and_shares_chunks() {
    let (mut repo, sec_key) = repo_init();
    let s1 = lcg_bytes(64 * 1024, 7);
    let root1 = store_data(&mut repo, &s1, ChunkType::Data);
    let c1 = repo.data_count();
    assert!(c1 >= 2, "expected the stream to cut into several chunks");
    assert!(repo.index_count() >= 1);
    assert_eq!(repo.chunk_type(&root1), Some(ChunkType::Index));
    let back1 = restore_data(&repo, &root1, &sec_key).unwrap();
    assert_eq!(back1, s1);

    // a stream sharing the whole prefix re-uses the stored chunks
    let mut s2 = s1.clone();
    s2.extend_from_slice(b"and then a little more on the end");
    let root2 = store_data(&mut repo, &s2, ChunkType::Data);
    assert_ne!(root1, root2);
    let c2 = repo.data_count();
    assert!(c2 > c1);
    assert!(c2 <= c1 + 3, "almost all chunks of the prefix are shared");
    let back2 = restore_data(&repo, &root2, &sec_key).unwrap();
    assert_eq!(back2, s2);
}

#[test]
fn corrupting_a_stored_byte_fails_the_load() {
    let (mut repo, sec_key) = repo_init();
    let root = store_data(&mut repo, b"hello world", ChunkType::Data);
    let mut corrupt = repo.get_object(&root, ChunkType::Data).unwrap().clone();
    corrupt[40] ^= 1;
    let mut repo2 = Repo::new(repo.pub_key_bytes().clone());
    repo2.insert_object(root.clone(), corrupt, ChunkType::Data);
    assert_eq!(restore_data(&repo2, &root, &sec_key), Err(LoadError::CryptoFailure));
}

#[test]
fn loading_an_unknown_digest_is_not_found() {
    let (repo, sec_key) = repo_init();
    let digest: Vec<u8> = (0u8..32).collect();
    assert_eq!(restore_data(&repo, &digest, &sec_key), Err(LoadError::NotFound));
}

#[test]
fn load_is_a_pure_function_of_the_repository() {
    let (mut repo, sec_key) = repo_init();
    let root = store_data(&mut repo, b"hello world", ChunkType::Data);
    let first = restore_data(&repo, &root, &sec_key);
    let second = restore_data(&repo, &root, &sec_key);
    assert_eq!(first, second);
}

#[test]
fn index_kind_shadows_data_kind() {
    let (mut repo, _sec_key) = repo_init();
    let digest: Vec<u8> = (0u8..32).collect();
    repo.insert_object(digest.clone(), vec![1, 2, 3], ChunkType::Data);
    assert_eq!(repo.chunk_type(&digest), Some(ChunkType::Data));
    repo.insert_object(digest.clone(), vec![4, 5, 6], ChunkType::Index);
    assert_eq!(repo.chunk_type(&digest), Some(ChunkType::Index));
}

#[test]
fn command_names_parse() {
    assert_eq!(Command::from_str(b"help"), Ok(Command::Help));
    assert_eq!(Command::from_str(b"save"), Ok(Command::Save));
    assert_eq!(Command::from_str(b"load"), Ok(Command::Load));
    assert_eq!(Command::from_str(b"init"), Ok(Command::Init));
    assert_eq!(Command::from_str(b"restore"), Err(()));
    assert_eq!(Command::from_str(b""), Err(()));
}

#[test]
fn root_digest_is_a_function_of_the_stream() {
    // two repositories with different keys: the root depends on the bytes alone
    let (mut r1, _sk1) = repo_init();
    let (mut r2, _sk2) = repo_init();
    let s = lcg_bytes(48 * 1024, 11);
    let root1 = store_data(&mut r1, &s, ChunkType::Data);
    let root2 = store_data(&mut r2, &s, ChunkType::Data);
    assert_eq!(root1, root2);
}
