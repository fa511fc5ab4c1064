//! The status reconciler: a pure, single-pass comparison of the staging
//! area, the digests HEAD's tree reaches, and a walk of the working
//! directory.
//!
//! For each staged entry, a fresh stat of its path either is missing (the
//! file was deleted), or builds an entry the dirtiness predicate compares
//! against the staged one (modified). Independently, an entry whose digest
//! HEAD's tree does not reach is staged for the next commit. A walked path
//! no entry claims is untracked.

use vstd::prelude::*;

use crate::bytes::{bytes_eq, contains_bytes, copy_bytes, spec_find, trim_end_range, trim_end_spec, trim_range, trim_spec, find_byte};
use crate::index::{dirty_eq, spec_from_path, FileStat, IndexEntry, IndexEntryV, IndexFile};

verus! {

/// The resolved content of a HEAD file: a symbolic reference to a ref file,
/// or a bare digest (detached).
#[derive(Debug)]
pub enum HeadRef {
    Symbolic(Vec<u8>),
    Detached(Vec<u8>),
}

/// The mathematical shadow of a `HeadRef`.
pub enum HeadRefV {
    Symbolic(Seq<u8>),
    Detached(Seq<u8>),
}

impl View for HeadRef {
    type V = HeadRefV;

    open spec fn view(&self) -> HeadRefV {
        match self {
            HeadRef::Symbolic(p) => HeadRefV::Symbolic(p@),
            HeadRef::Detached(h) => HeadRefV::Detached(h@),
        }
    }
}

/// What a HEAD file's text denotes: everything after the first space is a
/// ref path (trailing whitespace dropped); without a space the whole text,
/// trimmed, is a digest.
pub open spec fn spec_parse_head(text: Seq<u8>) -> HeadRefV {
    match spec_find(text, 0, 32u8) {
        Some(sp) => HeadRefV::Symbolic(trim_end_spec(text.subrange(sp + 1, text.len() as int))),
        None => HeadRefV::Detached(trim_spec(text)),
    }
}

/// Decodes a HEAD file's text.
pub fn parse_head(text: &Vec<u8>) -> (r: HeadRef)
    ensures
        r@ == spec_parse_head(text@),
{
    let n = text.len();
    proof {
        assert(text@.subrange(0, n as int) =~= text@);
    }
    match find_byte(text, 0, 32) {
        Some(sp) => {
            assert(sp < n);
            HeadRef::Symbolic(trim_end_range(text, sp + 1, n))
        },
        None => HeadRef::Detached(trim_range(text, 0, n)),
    }
}

/// The paths of the entries whose fresh stat no longer compares equal under
/// the dirtiness predicate, in entry order.
pub open spec fn spec_modified(es: Seq<IndexEntryV>, sts: Seq<Option<FileStat>>) -> Seq<Seq<u8>>
    recommends
        es.len() == sts.len(),
    decreases es.len(),
{
    if es.len() == 0 || sts.len() == 0 {
        Seq::empty()
    } else {
        let rest = spec_modified(es.drop_last(), sts.drop_last());
        match sts.last() {
            None => rest,
            Some(st) => {
                let e = es.last();
                if !dirty_eq(spec_from_path(e.entry_path, e.hash, e.flags, st), e) {
                    rest + seq![e.entry_path]
                } else {
                    rest
                }
            },
        }
    }
}

/// The paths of the entries whose path could not be stat-ed at all, in
/// entry order.
pub open spec fn spec_deleted(es: Seq<IndexEntryV>, sts: Seq<Option<FileStat>>) -> Seq<Seq<u8>>
    recommends
        es.len() == sts.len(),
    decreases es.len(),
{
    if es.len() == 0 || sts.len() == 0 {
        Seq::empty()
    } else {
        let rest = spec_deleted(es.drop_last(), sts.drop_last());
        match sts.last() {
            None => rest + seq![es.last().entry_path],
            Some(_) => rest,
        }
    }
}

/// The paths of the entries whose digest the given set does not hold, in
/// entry order.
pub open spec fn spec_staged(es: Seq<IndexEntryV>, blobs: Seq<Seq<u8>>) -> Seq<Seq<u8>>
    decreases es.len(),
{
    if es.len() == 0 {
        Seq::empty()
    } else {
        let rest = spec_staged(es.drop_last(), blobs);
        if !blobs.contains(es.last().hash) {
            rest + seq![es.last().entry_path]
        } else {
            rest
        }
    }
}

/// Whether some entry claims `p` as its path.
pub open spec fn has_path(es: Seq<IndexEntryV>, p: Seq<u8>) -> bool {
    exists|i: int| 0 <= i < es.len() && (#[trigger] es[i]).entry_path == p
}

/// The walked paths no entry claims, in walk order.
pub open spec fn spec_untracked(paths: Seq<Seq<u8>>, es: Seq<IndexEntryV>) -> Seq<Seq<u8>>
    decreases paths.len(),
{
    if paths.len() == 0 {
        Seq::empty()
    } else {
        let rest = spec_untracked(paths.drop_last(), es);
        if !has_path(es, paths.last()) {
            rest + seq![paths.last()]
        } else {
            rest
        }
    }
}

/// The three-way comparison's outcome: four ordered path lists.
#[derive(Debug)]
pub struct StatusReport {
    pub modified: Vec<Vec<u8>>,
    pub staged: Vec<Vec<u8>>,
    pub deleted: Vec<Vec<u8>>,
    pub untracked: Vec<Vec<u8>>,
}

/// Whether some entry's path holds the bytes of `p`.
fn entries_have_path(entries: &Vec<IndexEntry>, p: &Vec<u8>) -> (r: bool)
    ensures
        r == has_path(crate::index::index_entry_views(entries@), p@),
{
    let ghost es = crate::index::index_entry_views(entries@);
    let mut i: usize = 0;
    while i < entries.len()
        invariant
            i <= entries@.len(),
            es == crate::index::index_entry_views(entries@),
            es.len() == entries@.len(),
            forall|j: int| 0 <= j < i ==> (#[trigger] es[j]).entry_path != p@,
        decreases entries@.len() - i,
    {
        if bytes_eq(&entries[i].entry_path, p) {
            assert(es[i as int].entry_path == p@);
            return true;
        }
        assert(es[i as int].entry_path == entries@[i as int]@.entry_path);
        i = i + 1;
    }
    false
}

/// Computes the status report from the staging area, one fresh stat per
/// entry (in entry order, `None` where the path cannot be stat-ed), the
/// digests HEAD's tree reaches, and the walked working-directory paths.
pub fn status(
    index: &IndexFile,
    stats: &Vec<Option<FileStat>>,
    head_blobs: &Vec<Vec<u8>>,
    work_paths: &Vec<Vec<u8>>,
) -> (r: StatusReport)
    requires
        stats@.len() == index@.entries.len(),
    ensures
        r.modified.deep_view() == spec_modified(index@.entries, stats@),
        r.deleted.deep_view() == spec_deleted(index@.entries, stats@),
        r.staged.deep_view() == spec_staged(index@.entries, head_blobs.deep_view()),
        r.untracked.deep_view() == spec_untracked(work_paths.deep_view(), index@.entries),
{
    let ghost es = index@.entries;
    let ghost sts = stats@;
    let ghost blobs = head_blobs.deep_view();
    let mut modified: Vec<Vec<u8>> = Vec::new();
    let mut staged: Vec<Vec<u8>> = Vec::new();
    let mut deleted: Vec<Vec<u8>> = Vec::new();
    proof {
        assert(modified.deep_view() =~= Seq::<Seq<u8>>::empty());
        assert(es.take(0) =~= Seq::<IndexEntryV>::empty());
        assert(sts.take(0) =~= Seq::<Option<FileStat>>::empty());
    }
    let mut i: usize = 0;
    while i < index.entries.len()
        invariant
            i <= index.entries@.len(),
            es == index@.entries,
            sts == stats@,
            blobs == head_blobs.deep_view(),
            es.len() == index.entries@.len(),
            sts.len() == es.len(),
            modified.deep_view() == spec_modified(es.take(i as int), sts.take(i as int)),
            deleted.deep_view() == spec_deleted(es.take(i as int), sts.take(i as int)),
            staged.deep_view() == spec_staged(es.take(i as int), blobs),
        decreases index.entries@.len() - i,
    {
        let entry = &index.entries[i];
        proof {
            assert(es[i as int] == index.entries@[i as int]@);
            assert(es.take(i + 1).drop_last() =~= es.take(i as int));
            assert(sts.take(i + 1).drop_last() =~= sts.take(i as int));
            assert(es.take(i + 1).last() == es[i as int]);
            assert(sts.take(i + 1).last() == sts[i as int]);
        }
        match stats[i] {
            None => {
                let ghost d0 = deleted.deep_view();
                deleted.push(copy_bytes(&entry.entry_path));
                proof {
                    assert(deleted.deep_view() =~~= d0.push(es[i as int].entry_path));
                    assert(d0.push(es[i as int].entry_path) =~= d0 + seq![
                        es[i as int].entry_path,
                    ]);
                }
            },
            Some(st) => {
                let fresh = IndexEntry::from_path(
                    copy_bytes(&entry.entry_path),
                    copy_bytes(&entry.hash),
                    entry.flags,
                    &st,
                );
                if !(fresh == *entry) {
                    let ghost m0 = modified.deep_view();
                    modified.push(copy_bytes(&entry.entry_path));
                    proof {
                        assert(modified.deep_view() =~~= m0.push(es[i as int].entry_path));
                        assert(m0.push(es[i as int].entry_path) =~= m0 + seq![
                            es[i as int].entry_path,
                        ]);
                    }
                }
            },
        }
        if !contains_bytes(head_blobs, &entry.hash) {
            let ghost s0 = staged.deep_view();
            staged.push(copy_bytes(&entry.entry_path));
            proof {
                assert(staged.deep_view() =~~= s0.push(es[i as int].entry_path));
                assert(s0.push(es[i as int].entry_path) =~= s0 + seq![es[i as int].entry_path]);
            }
        }
        i = i + 1;
    }
    proof {
        assert(es.take(es.len() as int) =~= es);
        assert(sts.take(sts.len() as int) =~= sts);
    }
    let ghost wps = work_paths.deep_view();
    let mut untracked: Vec<Vec<u8>> = Vec::new();
    proof {
        assert(untracked.deep_view() =~= Seq::<Seq<u8>>::empty());
        assert(wps.take(0) =~= Seq::<Seq<u8>>::empty());
    }
    let mut k: usize = 0;
    while k < work_paths.len()
        invariant
            k <= work_paths@.len(),
            es == index@.entries,
            wps == work_paths.deep_view(),
            wps.len() == work_paths@.len(),
            untracked.deep_view() == spec_untracked(wps.take(k as int), es),
        decreases work_paths@.len() - k,
    {
        let p = &work_paths[k];
        proof {
            assert(wps[k as int] == work_paths@[k as int]@);
            assert(wps.take(k + 1).drop_last() =~= wps.take(k as int));
            assert(wps.take(k + 1).last() == wps[k as int]);
        }
        if !entries_have_path(&index.entries, p) {
            let ghost u0 = untracked.deep_view();
            untracked.push(copy_bytes(p));
            proof {
                assert(untracked.deep_view() =~~= u0.push(wps[k as int]));
                assert(u0.push(wps[k as int]) =~= u0 + seq![wps[k as int]]);
            }
        }
        k = k + 1;
    }
    proof {
        assert(wps.take(wps.len() as int) =~= wps);
    }
    StatusReport { modified, staged, deleted, untracked }
}

} // verus!
