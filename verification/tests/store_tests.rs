use mingit::errors::GitError;
use mingit::object::{Kind, Object};
use mingit::store::ObjectStore;

use flate2::write::ZlibEncoder;
use flate2::Compression;
use std::io::Write;

fn deflate(data: &[u8]) -> Vec<u8> {
    let mut enc = ZlibEncoder::new(Vec::new(), Compression::default());
    enc.write_all(data).unwrap();
    enc.finish().unwrap()
}

fn valid_name(prefix: &str) -> Vec<u8> {
    let mut name = String::from(prefix);
    while name.len() < 40 {
        name.push('0');
    }
    name.into_bytes()
}

#[test]
fn round_trip_blob() {
    let mut store = ObjectStore::new();
    let payload = b"hello world".to_vec();
    let obj = Object { kind: Kind::Blob, len: payload.len() as u64, payload: payload.clone() };
    let (digest, _zdata) = obj.write(&mut store);
    assert_eq!(digest.len(), 40);
    let back = store.read(&digest).unwrap();
    assert!(matches!(back.kind, Kind::Blob));
    assert_eq!(back.len, payload.len() as u64);
    assert_eq!(back.payload, payload);
}

#[test]
fn known_blob_digest() {
    let payload = b"hello world".to_vec();
    let obj = Object { kind: Kind::Blob, len: payload.len() as u64, payload };
    let digest = obj.hash();
    assert_eq!(
        String::from_utf8(digest).unwrap(),
        "95d09f2b10159347eece71399a7e2e907ea3df4f"
    );
}

#[test]
fn round_trip_empty_blob() {
    let mut store = ObjectStore::new();
    let obj = Object { kind: Kind::Blob, len: 0, payload: Vec::new() };
    let (digest, _) = obj.write(&mut store);
    let back = store.read(&digest).unwrap();
    assert!(matches!(back.kind, Kind::Blob));
    assert_eq!(back.payload, Vec::<u8>::new());
}

#[test]
fn write_is_deterministic_and_idempotent() {
    let mut store = ObjectStore::new();
    let payload = b"same content".to_vec();
    let obj = Object { kind: Kind::Blob, len: payload.len() as u64, payload };
    let (d1, z1) = obj.write(&mut store);
    let (d2, z2) = obj.write(&mut store);
    assert_eq!(d1, d2);
    assert_eq!(z1, z2);
    assert_eq!(store.count(), 1);
}

#[test]
fn distinct_content_distinct_digest() {
    let mut store = ObjectStore::new();
    let a = Object { kind: Kind::Blob, len: 1, payload: vec![b'a'] };
    let b = Object { kind: Kind::Blob, len: 1, payload: vec![b'b'] };
    let (da, _) = a.write(&mut store);
    let (db, _) = b.write(&mut store);
    assert_ne!(da, db);
    assert_eq!(store.count(), 2);
}

#[test]
fn kind_is_part_of_the_digest() {
    let mut store = ObjectStore::new();
    let blob = Object { kind: Kind::Blob, len: 2, payload: b"xy".to_vec() };
    let tree = Object { kind: Kind::Tree, len: 2, payload: b"xy".to_vec() };
    let (db, _) = blob.write(&mut store);
    let (dt, _) = tree.write(&mut store);
    assert_ne!(db, dt);
}

#[test]
fn read_not_found() {
    let store = ObjectStore::new();
    let err = store.read(&b"ab".to_vec()).unwrap_err();
    assert_eq!(err, GitError::NotFound);
}

#[test]
fn ambiguous_three_char_prefix() {
    let mut store = ObjectStore::new();
    let n1 = valid_name("abc1");
    let n2 = valid_name("abc2");
    assert!(store.insert_raw(n1, deflate(b"blob 1\0x")));
    assert!(store.insert_raw(n2, deflate(b"blob 1\0y")));
    let err = store.read(&b"abc".to_vec()).unwrap_err();
    assert_eq!(err, GitError::AmbiguousPrefix);
}

#[test]
fn prefix_resolves_unique_match() {
    let mut store = ObjectStore::new();
    let n1 = valid_name("abc1");
    let n2 = valid_name("def1");
    assert!(store.insert_raw(n1, deflate(b"blob 1\0x")));
    assert!(store.insert_raw(n2, deflate(b"blob 1\0y")));
    let obj = store.read(&b"de".to_vec()).unwrap();
    assert_eq!(obj.payload, b"y".to_vec());
}

#[test]
fn insert_raw_rejects_bad_names_and_duplicates() {
    let mut store = ObjectStore::new();
    assert!(!store.insert_raw(b"xyz".to_vec(), Vec::new()));
    assert!(!store.insert_raw(valid_name("G"), Vec::new()));
    assert!(store.insert_raw(valid_name("aa"), Vec::new()));
    assert!(!store.insert_raw(valid_name("aa"), Vec::new()));
    assert_eq!(store.count(), 1);
}

#[test]
fn unknown_kind_error() {
    let mut store = ObjectStore::new();
    assert!(store.insert_raw(valid_name("aa"), deflate(b"qux 3\0abc")));
    let err = store.read(&b"aa".to_vec()).unwrap_err();
    assert_eq!(err, GitError::UnknownKind);
}

#[test]
fn length_mismatch_is_corrupt_header() {
    let mut store = ObjectStore::new();
    assert!(store.insert_raw(valid_name("aa"), deflate(b"blob 5\0abc")));
    let err = store.read(&b"aa".to_vec()).unwrap_err();
    assert_eq!(err, GitError::CorruptHeader);
}

#[test]
fn missing_nul_is_corrupt_header() {
    let mut store = ObjectStore::new();
    assert!(store.insert_raw(valid_name("aa"), deflate(b"blob 3 abc")));
    let err = store.read(&b"aa".to_vec()).unwrap_err();
    assert_eq!(err, GitError::CorruptHeader);
}

#[test]
fn missing_space_is_corrupt_header() {
    let mut store = ObjectStore::new();
    assert!(store.insert_raw(valid_name("aa"), deflate(b"blob\x003abc")));
    let err = store.read(&b"aa".to_vec()).unwrap_err();
    assert_eq!(err, GitError::CorruptHeader);
}

#[test]
fn garbage_bytes_are_bad_compression() {
    let mut store = ObjectStore::new();
    assert!(store.insert_raw(valid_name("aa"), b"this is not a zlib stream".to_vec()));
    let err = store.read(&b"aa".to_vec()).unwrap_err();
    assert_eq!(err, GitError::BadCompression);
}

#[test]
fn hash_matches_write_digest() {
    let mut store = ObjectStore::new();
    let obj = Object { kind: Kind::Blob, len: 3, payload: b"abc".to_vec() };
    let computed = obj.hash();
    let (written, _) = obj.write(&mut store);
    assert_eq!(computed, written);
}
