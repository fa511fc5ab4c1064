use mingit::commit::Commit;
use mingit::errors::GitError;
use mingit::object::{Kind, Object};
use mingit::store::ObjectStore;

fn sample_payload() -> Vec<u8> {
    let mut data = Vec::new();
    data.extend_from_slice(b"tree 0102030405060708090a0b0c0d0e0f1011121314\n");
    data.extend_from_slice(b"parent 1112131415161718191a1b1c1d1e1f2021222324\n");
    data.extend_from_slice(b"author John Doe john@example.com 1700000000 +0100\n");
    data.extend_from_slice(b"committer Jane Roe jane@example.com 1700000001 -0500\n");
    data.extend_from_slice(b"\n");
    data.extend_from_slice(b"first line\nsecond line\n");
    data
}

#[test]
fn parse_commit_fields() {
    let commit = Commit::read(&sample_payload()).unwrap();
    assert_eq!(commit.tree, b"0102030405060708090a0b0c0d0e0f1011121314".to_vec());
    assert_eq!(commit.parent, b"1112131415161718191a1b1c1d1e1f2021222324".to_vec());
    assert_eq!(commit.author, b"John Doe".to_vec());
    assert_eq!(commit.author_email, b"john@example.com".to_vec());
    assert_eq!(commit.author_time, b"1700000000".to_vec());
    assert_eq!(commit.author_offset, b"+0100".to_vec());
    assert_eq!(commit.committer, b"Jane Roe".to_vec());
    assert_eq!(commit.committer_email, b"jane@example.com".to_vec());
    assert_eq!(commit.committer_time, b"1700000001".to_vec());
    assert_eq!(commit.committer_offset, b"-0500".to_vec());
}

#[test]
fn message_is_the_whole_remainder() {
    let commit = Commit::read(&sample_payload()).unwrap();
    assert_eq!(commit.message, b"first line\nsecond line\n".to_vec());
}

#[test]
fn five_token_identity_is_malformed() {
    let mut data = Vec::new();
    data.extend_from_slice(b"tree 0102030405060708090a0b0c0d0e0f1011121314\n");
    data.extend_from_slice(b"parent 1112131415161718191a1b1c1d1e1f2021222324\n");
    data.extend_from_slice(b"author John john@example.com 1700000000 +0100\n");
    data.extend_from_slice(b"committer Jane Roe jane@example.com 1700000001 -0500\n");
    data.extend_from_slice(b"\nmsg\n");
    let err = Commit::read(&data).unwrap_err();
    assert_eq!(err, GitError::MalformedIdentity);
}

#[test]
fn seven_token_identity_is_malformed() {
    let mut data = Vec::new();
    data.extend_from_slice(b"tree 0102030405060708090a0b0c0d0e0f1011121314\n");
    data.extend_from_slice(b"parent 1112131415161718191a1b1c1d1e1f2021222324\n");
    data.extend_from_slice(b"author John Doe john@example.com 1700000000 +0100\n");
    data.extend_from_slice(b"committer Jane van der Roe jane@example.com 1700000001 -0500\n");
    data.extend_from_slice(b"\nmsg\n");
    let err = Commit::read(&data).unwrap_err();
    assert_eq!(err, GitError::MalformedIdentity);
}

#[test]
fn tree_line_without_space_is_corrupt() {
    let err = Commit::read(&b"treeless\n".to_vec()).unwrap_err();
    assert_eq!(err, GitError::CorruptHeader);
}

#[test]
fn read_from_hash_resolves_a_stored_commit() {
    let mut store = ObjectStore::new();
    let payload = sample_payload();
    let obj = Object { kind: Kind::Commit, len: payload.len() as u64, payload };
    let (digest, _) = obj.write(&mut store);
    let commit = Commit::read_from_hash(&store, &digest).unwrap();
    assert_eq!(commit.author, b"John Doe".to_vec());
}

#[test]
fn read_from_hash_on_a_blob_is_wrong_kind() {
    let mut store = ObjectStore::new();
    let obj = Object { kind: Kind::Blob, len: 3, payload: b"abc".to_vec() };
    let (digest, _) = obj.write(&mut store);
    let err = Commit::read_from_hash(&store, &digest).unwrap_err();
    assert_eq!(err, GitError::WrongKind);
}
