use mingit::errors::GitError;
use mingit::index::{FileStat, IndexEntry, IndexFile};

fn push_u32_be(out: &mut Vec<u8>, n: u32) {
    out.extend_from_slice(&n.to_be_bytes());
}

fn sample_stat() -> FileStat {
    FileStat {
        ctime_seconds: 1,
        ctime_nanoseconds: 2,
        mtime_seconds: 3,
        mtime_nanoseconds: 4,
        device: 5,
        inode: 6,
        is_symlink: false,
        raw_mode: 0o644,
        user_id: 7,
        group_id: 8,
        file_size: 9,
    }
}

fn sample_image() -> Vec<u8> {
    let mut data = Vec::new();
    data.extend_from_slice(b"DIRC");
    push_u32_be(&mut data, 2);
    push_u32_be(&mut data, 1);
    for word in [1u32, 2, 3, 4, 5, 6] {
        push_u32_be(&mut data, word);
    }
    push_u32_be(&mut data, (8 << 12) | 0o644);
    for word in [7u32, 8, 9] {
        push_u32_be(&mut data, word);
    }
    data.extend_from_slice(&[0xaa; 20]);
    data.extend_from_slice(&[0x12, 0x34]);
    data.extend_from_slice(b"foo.a\0");
    data.extend_from_slice(&[0, 0, 0, 0]);
    data
}

#[test]
fn parse_whole_index() {
    let file = IndexFile::read_from_index(&sample_image()).unwrap();
    assert_eq!(file.signature, b"DIRC".to_vec());
    assert_eq!(file.version, 2);
    assert_eq!(file.entries.len(), 1);
    let e = &file.entries[0];
    assert_eq!(e.ctime_seconds, 1);
    assert_eq!(e.ctime_nanoseconds, 2);
    assert_eq!(e.mtime_seconds, 3);
    assert_eq!(e.mtime_nanoseconds, 4);
    assert_eq!(e.device, 5);
    assert_eq!(e.inode, 6);
    assert_eq!(e.object_type, 8);
    assert_eq!(e.unix_permission, 0o644);
    assert_eq!(e.user_id, 7);
    assert_eq!(e.group_id, 8);
    assert_eq!(e.file_size, 9);
    assert_eq!(e.hash, b"aa".repeat(20));
    assert_eq!(e.flags, 0x1234);
    assert_eq!(e.entry_path, b"foo.a".to_vec());
}

#[test]
fn bad_signature() {
    let mut data = sample_image();
    data[0] = b'X';
    let err = IndexFile::read_from_index(&data).unwrap_err();
    assert_eq!(err, GitError::BadSignature);
}

#[test]
fn truncated_record() {
    let mut data = sample_image();
    data.truncate(40);
    let err = IndexFile::read_from_index(&data).unwrap_err();
    assert_eq!(err, GitError::Truncated);
}

#[test]
fn truncated_header() {
    let err = IndexFile::read_from_index(&b"DI".to_vec()).unwrap_err();
    assert_eq!(err, GitError::Truncated);
}

#[test]
fn padding_aligns_record_with_five_byte_path() {
    let entry = IndexEntry::from_path(
        b"fooba".to_vec(),
        b"ab".repeat(20),
        0,
        &sample_stat(),
    );
    let file = IndexFile { signature: b"DIRC".to_vec(), version: 2, entries: vec![entry] };
    let image = file.write_bytes();
    // header 12, fixed words 40, then hash 20 + flags 2 + path 5 + NUL 1 = 28,
    // padded with 4 NULs to the next multiple of eight.
    assert_eq!(image.len(), 12 + 40 + 28 + 4);
    assert_eq!(&image[image.len() - 4..], &[0, 0, 0, 0]);
}

#[test]
fn eight_byte_tail_needs_no_padding() {
    // hash 20 + flags 2 + path 9 + NUL 1 = 32, already a multiple of eight.
    let entry = IndexEntry::from_path(
        b"plate.txt".to_vec(),
        b"ab".repeat(20),
        0,
        &sample_stat(),
    );
    let file = IndexFile { signature: b"DIRC".to_vec(), version: 2, entries: vec![entry] };
    let image = file.write_bytes();
    assert_eq!(image.len(), 12 + 40 + 32);
}

#[test]
fn write_then_read_round_trip() {
    let entry = IndexEntry::from_path(b"src/lib.rs".to_vec(), b"0f".repeat(20), 0x5678, &sample_stat());
    let other = IndexEntry::from_path(
        b"README".to_vec(),
        b"1234567890abcdef1234567890abcdef12345678".to_vec(),
        7,
        &FileStat { is_symlink: true, ..sample_stat() },
    );
    let file = IndexFile { signature: b"DIRC".to_vec(), version: 2, entries: vec![entry, other] };
    let image = file.write_bytes();
    let back = IndexFile::read_from_index(&image).unwrap();
    assert_eq!(back.signature, b"DIRC".to_vec());
    assert_eq!(back.version, 2);
    assert_eq!(back.entries.len(), 2);
    for (a, b) in file.entries.iter().zip(back.entries.iter()) {
        assert_eq!(a.ctime_seconds, b.ctime_seconds);
        assert_eq!(a.ctime_nanoseconds, b.ctime_nanoseconds);
        assert_eq!(a.mtime_seconds, b.mtime_seconds);
        assert_eq!(a.mtime_nanoseconds, b.mtime_nanoseconds);
        assert_eq!(a.device, b.device);
        assert_eq!(a.inode, b.inode);
        assert_eq!(a.object_type, b.object_type);
        assert_eq!(a.unix_permission, b.unix_permission);
        assert_eq!(a.user_id, b.user_id);
        assert_eq!(a.group_id, b.group_id);
        assert_eq!(a.file_size, b.file_size);
        assert_eq!(a.hash, b.hash);
        assert_eq!(a.flags, b.flags);
        assert_eq!(a.entry_path, b.entry_path);
    }
}

#[test]
fn from_path_normalizes_permissions() {
    let regular = IndexEntry::from_path(b"a".to_vec(), b"ab".repeat(20), 0, &sample_stat());
    assert_eq!(regular.object_type, 0b1000);
    assert_eq!(regular.unix_permission, 0o644);

    let exec_stat = FileStat { raw_mode: 0o755, ..sample_stat() };
    let executable = IndexEntry::from_path(b"b".to_vec(), b"ab".repeat(20), 0, &exec_stat);
    assert_eq!(executable.unix_permission, 0o755);

    let odd_stat = FileStat { raw_mode: 0o600, ..sample_stat() };
    let coerced = IndexEntry::from_path(b"c".to_vec(), b"ab".repeat(20), 0, &odd_stat);
    assert_eq!(coerced.unix_permission, 0o644);

    let link_stat = FileStat { is_symlink: true, ..sample_stat() };
    let link = IndexEntry::from_path(b"d".to_vec(), b"ab".repeat(20), 0, &link_stat);
    assert_eq!(link.object_type, 0b1010);
    assert_eq!(link.unix_permission, 0);
}

#[test]
fn dirtiness_ignores_hash_and_flags() {
    let a = IndexEntry::from_path(b"f".to_vec(), b"aa".repeat(20), 1, &sample_stat());
    let b = IndexEntry::from_path(b"f".to_vec(), b"bb".repeat(20), 2, &sample_stat());
    assert!(a == b);
}

#[test]
fn dirtiness_sees_mtime_change() {
    let a = IndexEntry::from_path(b"f".to_vec(), b"aa".repeat(20), 1, &sample_stat());
    let touched = FileStat { mtime_seconds: 99, ..sample_stat() };
    let b = IndexEntry::from_path(b"f".to_vec(), b"aa".repeat(20), 1, &touched);
    assert!(a != b);
}

#[test]
fn dirtiness_sees_path_change() {
    let a = IndexEntry::from_path(b"f".to_vec(), b"aa".repeat(20), 1, &sample_stat());
    let b = IndexEntry::from_path(b"g".to_vec(), b"aa".repeat(20), 1, &sample_stat());
    assert!(a != b);
}

#[test]
fn dirtiness_stability_after_write_and_read() {
    let stat = sample_stat();
    let entry = IndexEntry::from_path(b"foo.txt".to_vec(), b"cd".repeat(20), 3, &stat);
    let file = IndexFile { signature: b"DIRC".to_vec(), version: 2, entries: vec![entry] };
    let image = file.write_bytes();
    let back = IndexFile::read_from_index(&image).unwrap();
    let fresh = IndexEntry::from_path(b"foo.txt".to_vec(), b"cd".repeat(20), 3, &stat);
    assert!(fresh == back.entries[0]);
}
