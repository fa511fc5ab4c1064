use mingit::errors::GitError;
use mingit::object::{Kind, Object};
use mingit::store::ObjectStore;
use mingit::tree::{Tree, TreeEntry};

use flate2::write::ZlibEncoder;
use flate2::Compression;
use std::io::Write;

fn deflate(data: &[u8]) -> Vec<u8> {
    let mut enc = ZlibEncoder::new(Vec::new(), Compression::default());
    enc.write_all(data).unwrap();
    enc.finish().unwrap()
}

fn record(mode: &str, name: &str, hash_hex: &[u8]) -> Vec<u8> {
    let mut out = Vec::new();
    out.extend_from_slice(mode.as_bytes());
    out.push(b' ');
    out.extend_from_slice(name.as_bytes());
    out.push(0);
    out.extend_from_slice(&hex::decode(hash_hex).unwrap());
    out
}

#[test]
fn parse_single_entry() {
    let mut data = b"100644 hello.txt\0".to_vec();
    let raw: Vec<u8> = (0u8..20).collect();
    data.extend_from_slice(&raw);
    let (entry, next) = TreeEntry::read(&data, 0).unwrap();
    assert_eq!(entry.mode, 100644);
    assert_eq!(entry.filename, b"hello.txt".to_vec());
    assert_eq!(entry.hash, b"000102030405060708090a0b0c0d0e0f10111213".to_vec());
    assert_eq!(next, data.len());
}

#[test]
fn parse_two_entries_in_order() {
    let mut data = record("100644", "a.txt", b"aa".repeat(20).as_slice());
    data.extend_from_slice(&record("40000", "dir", b"bb".repeat(20).as_slice()));
    let tree = Tree::read(&data).unwrap();
    assert_eq!(tree.entries.len(), 2);
    assert_eq!(tree.entries[0].filename, b"a.txt".to_vec());
    assert_eq!(tree.entries[1].mode, 40000);
}

#[test]
fn empty_stream_is_empty_tree() {
    let tree = Tree::read(&Vec::new()).unwrap();
    assert_eq!(tree.entries.len(), 0);
}

#[test]
fn partial_record_is_truncated() {
    let mut data = b"100644 a\0".to_vec();
    data.extend_from_slice(&[1, 2, 3]);
    let err = Tree::read(&data).unwrap_err();
    assert_eq!(err, GitError::Truncated);
}

#[test]
fn record_without_nul_is_truncated() {
    let data = b"100644 a".to_vec();
    let err = Tree::read(&data).unwrap_err();
    assert_eq!(err, GitError::Truncated);
}

#[test]
fn record_without_space_is_corrupt() {
    let mut data = b"100644a\0".to_vec();
    data.extend_from_slice(&[0u8; 20]);
    let err = Tree::read(&data).unwrap_err();
    assert_eq!(err, GitError::CorruptHeader);
}

#[test]
fn non_decimal_mode_is_corrupt() {
    let mut data = b"10x644 a\0".to_vec();
    data.extend_from_slice(&[0u8; 20]);
    let err = Tree::read(&data).unwrap_err();
    assert_eq!(err, GitError::CorruptHeader);
}

#[test]
fn type_tags_follow_the_mode() {
    let mk = |mode: u32| TreeEntry { mode, filename: Vec::new(), hash: Vec::new() };
    assert_eq!(mk(100644).type_tag(), "blob");
    assert_eq!(mk(100755).type_tag(), "executable");
    assert_eq!(mk(40000).type_tag(), "tree");
    assert_eq!(mk(120000).type_tag(), "symlink");
    assert_eq!(mk(160000).type_tag(), "gitlink");
    assert_eq!(mk(777).type_tag(), "");
}

#[test]
fn traverse_flattens_nested_tree_to_three_digests() {
    let mut store = ObjectStore::new();
    let (b1, _) = Object { kind: Kind::Blob, len: 1, payload: vec![b'a'] }.write(&mut store);
    let (b2, _) = Object { kind: Kind::Blob, len: 1, payload: vec![b'b'] }.write(&mut store);
    let (b3, _) = Object { kind: Kind::Blob, len: 1, payload: vec![b'c'] }.write(&mut store);
    let mut sub_payload = record("100644", "x", &b1);
    sub_payload.extend_from_slice(&record("100644", "y", &b2));
    let sub_len = sub_payload.len() as u64;
    let (sub_digest, _) =
        Object { kind: Kind::Tree, len: sub_len, payload: sub_payload }.write(&mut store);
    let mut root_payload = record("40000", "d", &sub_digest);
    root_payload.extend_from_slice(&record("100644", "z", &b3));
    let root = Tree::read(&root_payload).unwrap();
    let blobs = root.traverse(&store).unwrap();
    assert_eq!(blobs.len(), 3);
    assert!(blobs.contains(&b1));
    assert!(blobs.contains(&b2));
    assert!(blobs.contains(&b3));
}

#[test]
fn traverse_deduplicates_repeated_digests() {
    let mut store = ObjectStore::new();
    let (b1, _) = Object { kind: Kind::Blob, len: 1, payload: vec![b'a'] }.write(&mut store);
    let mut payload = record("100644", "one", &b1);
    payload.extend_from_slice(&record("100644", "two", &b1));
    let tree = Tree::read(&payload).unwrap();
    let blobs = tree.traverse(&store).unwrap();
    assert_eq!(blobs.len(), 1);
    assert_eq!(blobs[0], b1);
}

#[test]
fn traverse_missing_subtree_is_not_found() {
    let store = ObjectStore::new();
    let payload = record("40000", "d", b"ab".repeat(20).as_slice());
    let tree = Tree::read(&payload).unwrap();
    let err = tree.traverse(&store).unwrap_err();
    assert_eq!(err, GitError::NotFound);
}

#[test]
fn traverse_subtree_that_is_a_blob_is_wrong_kind() {
    let mut store = ObjectStore::new();
    let (b1, _) = Object { kind: Kind::Blob, len: 1, payload: vec![b'a'] }.write(&mut store);
    let payload = record("40000", "d", &b1);
    let tree = Tree::read(&payload).unwrap();
    let err = tree.traverse(&store).unwrap_err();
    assert_eq!(err, GitError::WrongKind);
}

#[test]
fn traverse_self_referencing_tree_exceeds_depth() {
    let mut store = ObjectStore::new();
    let name: Vec<u8> = b"ab".repeat(20);
    let inner = record("40000", "loop", &name);
    let mut frame = format!("tree {}\0", inner.len()).into_bytes();
    frame.extend_from_slice(&inner);
    assert!(store.insert_raw(name.clone(), deflate(&frame)));
    let root = Tree::read(&record("40000", "top", &name)).unwrap();
    let err = root.traverse(&store).unwrap_err();
    assert_eq!(err, GitError::DepthExceeded);
}
