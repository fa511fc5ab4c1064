use mingit::index::{FileStat, IndexEntry, IndexFile};
use mingit::status::{parse_head, status, HeadRef};

fn sample_stat() -> FileStat {
    FileStat {
        ctime_seconds: 10,
        ctime_nanoseconds: 11,
        mtime_seconds: 12,
        mtime_nanoseconds: 13,
        device: 14,
        inode: 15,
        is_symlink: false,
        raw_mode: 0o644,
        user_id: 16,
        group_id: 17,
        file_size: 18,
    }
}

fn index_with(entries: Vec<IndexEntry>) -> IndexFile {
    IndexFile { signature: b"DIRC".to_vec(), version: 2, entries }
}

#[test]
fn head_symbolic_reference() {
    let head = parse_head(&b"ref: refs/heads/main\n".to_vec());
    match head {
        HeadRef::Symbolic(path) => assert_eq!(path, b"refs/heads/main".to_vec()),
        HeadRef::Detached(_) => panic!("expected a symbolic reference"),
    }
}

#[test]
fn head_detached_digest() {
    let head = parse_head(&b"0102030405060708090a0b0c0d0e0f1011121314\n".to_vec());
    match head {
        HeadRef::Detached(hash) => {
            assert_eq!(hash, b"0102030405060708090a0b0c0d0e0f1011121314".to_vec())
        },
        HeadRef::Symbolic(_) => panic!("expected a detached digest"),
    }
}

#[test]
fn clean_file_staged_against_empty_head() {
    // One entry for foo.txt whose stat matches disk; HEAD's tree reaches no
    // digests; the walk sees only foo.txt.
    let stat = sample_stat();
    let entry = IndexEntry::from_path(b"foo.txt".to_vec(), b"ab".repeat(20), 0, &stat);
    let index = index_with(vec![entry]);
    let stats = vec![Some(stat)];
    let head_blobs: Vec<Vec<u8>> = Vec::new();
    let work_paths = vec![b"foo.txt".to_vec()];
    let report = status(&index, &stats, &head_blobs, &work_paths);
    assert_eq!(report.modified, Vec::<Vec<u8>>::new());
    assert_eq!(report.staged, vec![b"foo.txt".to_vec()]);
    assert_eq!(report.deleted, Vec::<Vec<u8>>::new());
    assert_eq!(report.untracked, Vec::<Vec<u8>>::new());
}

#[test]
fn touched_file_is_modified() {
    let stat = sample_stat();
    let entry = IndexEntry::from_path(b"foo.txt".to_vec(), b"ab".repeat(20), 0, &stat);
    let index = index_with(vec![entry]);
    let touched = FileStat { mtime_seconds: 99, ..stat };
    let stats = vec![Some(touched)];
    let head_blobs = vec![b"ab".repeat(20)];
    let work_paths = vec![b"foo.txt".to_vec()];
    let report = status(&index, &stats, &head_blobs, &work_paths);
    assert_eq!(report.modified, vec![b"foo.txt".to_vec()]);
    assert_eq!(report.staged, Vec::<Vec<u8>>::new());
    assert_eq!(report.deleted, Vec::<Vec<u8>>::new());
    assert_eq!(report.untracked, Vec::<Vec<u8>>::new());
}

#[test]
fn missing_file_is_deleted() {
    let stat = sample_stat();
    let entry = IndexEntry::from_path(b"gone.txt".to_vec(), b"ab".repeat(20), 0, &stat);
    let index = index_with(vec![entry]);
    let stats = vec![None];
    let head_blobs = vec![b"ab".repeat(20)];
    let work_paths: Vec<Vec<u8>> = Vec::new();
    let report = status(&index, &stats, &head_blobs, &work_paths);
    assert_eq!(report.deleted, vec![b"gone.txt".to_vec()]);
    assert_eq!(report.modified, Vec::<Vec<u8>>::new());
    assert_eq!(report.staged, Vec::<Vec<u8>>::new());
}

#[test]
fn unknown_path_is_untracked() {
    let stat = sample_stat();
    let entry = IndexEntry::from_path(b"foo.txt".to_vec(), b"ab".repeat(20), 0, &stat);
    let index = index_with(vec![entry]);
    let stats = vec![Some(stat)];
    let head_blobs = vec![b"ab".repeat(20)];
    let work_paths = vec![b"foo.txt".to_vec(), b"new.txt".to_vec()];
    let report = status(&index, &stats, &head_blobs, &work_paths);
    assert_eq!(report.untracked, vec![b"new.txt".to_vec()]);
    assert_eq!(report.modified, Vec::<Vec<u8>>::new());
    assert_eq!(report.staged, Vec::<Vec<u8>>::new());
}

#[test]
fn digest_reached_by_head_is_not_staged() {
    let stat = sample_stat();
    let entry = IndexEntry::from_path(b"foo.txt".to_vec(), b"ab".repeat(20), 0, &stat);
    let index = index_with(vec![entry]);
    let stats = vec![Some(stat)];
    let head_blobs = vec![b"ab".repeat(20)];
    let work_paths = vec![b"foo.txt".to_vec()];
    let report = status(&index, &stats, &head_blobs, &work_paths);
    assert_eq!(report.staged, Vec::<Vec<u8>>::new());
}
