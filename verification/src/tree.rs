//! Trees: ordered directory listings, their record codec, and the recursive
//! flattening of a tree into the set of content digests it reaches.

use vstd::prelude::*;

use crate::bytes::{
    contains_bytes, dec_val, is_dec_digits, lemma_spec_find, parse_decimal, spec_find, find_byte,
};
use crate::digest::{hex_encode, hex_of, is_hex40, lemma_hex_of_shape};
use crate::errors::GitError;
use crate::object::Kind;
use crate::store::{spec_read, ObjectStore};
use vstd::slice::{slice_subrange, slice_to_vec};

verus! {

broadcast use vstd::set::group_set_axioms;

/// One directory entry: a numeric mode, a single path component, and the
/// hex digest of the entry's object.
#[derive(Debug)]
pub struct TreeEntry {
    pub mode: u32,
    pub filename: Vec<u8>,
    pub hash: Vec<u8>,
}

/// The mathematical shadow of a `TreeEntry`.
pub struct TreeEntryV {
    pub mode: u32,
    pub filename: Seq<u8>,
    pub hash: Seq<u8>,
}

impl View for TreeEntry {
    type V = TreeEntryV;

    open spec fn view(&self) -> TreeEntryV {
        TreeEntryV { mode: self.mode, filename: self.filename@, hash: self.hash@ }
    }
}

/// The views of a sequence of entries.
pub open spec fn entry_views(s: Seq<TreeEntry>) -> Seq<TreeEntryV> {
    s.map(|i: int, e: TreeEntry| e@)
}

/// An ordered sequence of directory entries.
#[derive(Debug)]
pub struct Tree {
    pub entries: Vec<TreeEntry>,
}

impl View for Tree {
    type V = Seq<TreeEntryV>;

    open spec fn view(&self) -> Seq<TreeEntryV> {
        entry_views(self.entries@)
    }
}

/// The type tag an entry's mode denotes; a mode this library does not
/// special-case is retained and renders as an empty tag.
pub open spec fn spec_type_tag(mode: u32) -> Seq<char> {
    if mode == 100644 {
        "blob"@
    } else if mode == 100755 {
        "executable"@
    } else if mode == 40000 {
        "tree"@
    } else if mode == 120000 {
        "symlink"@
    } else if mode == 160000 {
        "gitlink"@
    } else {
        ""@
    }
}

impl TreeEntry {
    /// The type tag this entry's mode denotes.
    pub fn type_tag(&self) -> (r: &'static str)
        ensures
            r@ == spec_type_tag(self.mode),
    {
        if self.mode == 100644 {
            "blob"
        } else if self.mode == 100755 {
            "executable"
        } else if self.mode == 40000 {
            "tree"
        } else if self.mode == 120000 {
            "symlink"
        } else if self.mode == 160000 {
            "gitlink"
        } else {
            ""
        }
    }
}

/// What decoding one record at `at` yields: the entry and the position just
/// past it. A record is `"<decimal mode> <filename>\0"` followed by 20 raw
/// digest bytes, rendered in hex.
pub open spec fn spec_parse_entry(data: Seq<u8>, at: int) -> Result<(TreeEntryV, int), GitError> {
    match spec_find(data, at, 0u8) {
        None => Err(GitError::Truncated),
        Some(z) => {
            let header = data.subrange(at, z);
            match spec_find(header, 0, 32u8) {
                None => Err(GitError::CorruptHeader),
                Some(sp) => {
                    let mdigits = header.take(sp);
                    let fname = header.subrange(sp + 1, header.len() as int);
                    if !is_dec_digits(mdigits) || dec_val(mdigits) > u32::MAX {
                        Err(GitError::CorruptHeader)
                    } else if z + 21 > data.len() {
                        Err(GitError::Truncated)
                    } else {
                        Ok(
                            (
                                TreeEntryV {
                                    mode: dec_val(mdigits) as u32,
                                    filename: fname,
                                    hash: hex_of(data.subrange(z + 1, z + 21)),
                                },
                                z + 21,
                            ),
                        )
                    }
                },
            }
        },
    }
}

/// What decoding records from `at` to the end of the stream yields. Decoding
/// stops cleanly only on a record boundary at the very end; a partial record
/// is an error, not a stop.
pub open spec fn spec_parse_tree(data: Seq<u8>, at: int) -> Result<Seq<TreeEntryV>, GitError>
    decreases data.len() - at,
{
    if at < 0 || at > data.len() {
        Err(GitError::Truncated)
    } else if at == data.len() {
        Ok(Seq::empty())
    } else {
        match spec_parse_entry(data, at) {
            Err(e) => Err(e),
            Ok(head) => {
                if at < head.1 <= data.len() {
                    match spec_parse_tree(data, head.1) {
                        Err(e) => Err(e),
                        Ok(rest) => Ok(seq![head.0] + rest),
                    }
                } else {
                    Err(GitError::Truncated)
                }
            },
        }
    }
}

/// Every hash that record decoding produces is a 40-character lowercase hex
/// digest.
pub proof fn lemma_parse_tree_hashes(data: Seq<u8>, at: int)
    ensures
        spec_parse_tree(data, at) matches Ok(es) ==> forall|i: int|
            0 <= i < es.len() ==> is_hex40((#[trigger] es[i]).hash),
    decreases data.len() - at,
{
    if 0 <= at < data.len() {
        match spec_parse_entry(data, at) {
            Err(_) => {},
            Ok(head) => {
                if at < head.1 <= data.len() {
                    lemma_parse_tree_hashes(data, head.1);
                    if spec_parse_tree(data, head.1) is Ok {
                        let rest = spec_parse_tree(data, head.1)->Ok_0;
                        let es = seq![head.0] + rest;
                        assert(is_hex40(head.0.hash)) by {
                            lemma_spec_find(data, at, 0u8);
                            let z = spec_find(data, at, 0u8)->Some_0;
                            assert(head.1 == z + 21);
                            assert(z + 21 <= data.len());
                            assert(head.0.hash == hex_of(data.subrange(z + 1, z + 21)));
                            lemma_hex_of_shape(data.subrange(z + 1, z + 21));
                        }
                        assert forall|i: int| 0 <= i < es.len() implies is_hex40(
                            (#[trigger] es[i]).hash,
                        ) by {
                            if i == 0 {
                                assert(es[0] == head.0);
                            } else {
                                assert(es[i] == rest[i - 1]);
                            }
                        }
                    }
                }
            },
        }
    }
}

/// Whether every entry's hash has a digest's canonical textual form.
pub open spec fn entry_hashes_wf(es: Seq<TreeEntryV>) -> bool {
    forall|i: int| 0 <= i < es.len() ==> is_hex40((#[trigger] es[i]).hash)
}

/// Whether a sequence of byte strings holds no repeats.
pub open spec fn no_dup_seqs(s: Seq<Seq<u8>>) -> bool {
    forall|i: int, j: int| 0 <= i < j < s.len() ==> s[i] != s[j]
}

/// The mode that marks an entry as a subtree.
pub const SUBTREE_MODE: u32 = 40000;

/// The set of content digests a sequence of entries reaches in a store with
/// contents `v`: its own non-subtree digests, and, recursively, everything
/// below its subtrees. Each descent into a subtree spends one unit of fuel;
/// running out means the nesting exceeds what an acyclic store can hold.
pub open spec fn spec_traverse(
    v: Seq<(Seq<u8>, Seq<u8>)>,
    es: Seq<TreeEntryV>,
    fuel: nat,
) -> Result<Set<Seq<u8>>, GitError>
    decreases fuel, es.len(),
{
    if es.len() == 0 {
        Ok(Set::empty())
    } else {
        let e = es[0];
        let rest = es.drop_first();
        if e.mode != SUBTREE_MODE {
            match spec_traverse(v, rest, fuel) {
                Err(err) => Err(err),
                Ok(s) => Ok(s.insert(e.hash)),
            }
        } else {
            match spec_read(v, e.hash) {
                Err(err) => Err(err),
                Ok(ko) => {
                    if ko.0 != Kind::Tree {
                        Err(GitError::WrongKind)
                    } else {
                        match spec_parse_tree(ko.1, 0) {
                            Err(err) => Err(err),
                            Ok(sub) => {
                                if fuel == 0 {
                                    Err(GitError::DepthExceeded)
                                } else {
                                    match spec_traverse(v, sub, (fuel - 1) as nat) {
                                        Err(err) => Err(err),
                                        Ok(s1) => match spec_traverse(v, rest, fuel) {
                                            Err(err) => Err(err),
                                            Ok(s2) => Ok(s1.union(s2)),
                                        },
                                    }
                                }
                            },
                        }
                    }
                },
            }
        }
    }
}

/// Appending an element to a sequence inserts it into the sequence's set.
proof fn lemma_push_to_set(s: Seq<Seq<u8>>, x: Seq<u8>)
    ensures
        s.push(x).to_set() == s.to_set().insert(x),
{
    assert forall|a: Seq<u8>| s.push(x).to_set().contains(a) implies s.to_set().insert(x).contains(
        a,
    ) by {
        let idx = choose|i: int| 0 <= i < s.push(x).len() && s.push(x)[i] == a;
        if idx < s.len() {
            assert(s[idx] == a);
            assert(s.contains(a));
        }
    }
    assert forall|a: Seq<u8>| s.to_set().insert(x).contains(a) implies s.push(x).to_set().contains(
        a,
    ) by {
        if a == x {
            assert(s.push(x)[s.len() as int] == a);
            assert(s.push(x).contains(a));
        } else {
            assert(s.contains(a));
            let idx = choose|i: int| 0 <= i < s.len() && s[i] == a;
            assert(s.push(x)[idx] == a);
            assert(s.push(x).contains(a));
        }
    }
    assert(s.push(x).to_set() =~= s.to_set().insert(x));
}

/// Processes the entries from `i` on, adding every digest they reach to
/// `acc` without introducing repeats.
fn traverse_rec(
    store: &ObjectStore,
    entries: &Vec<TreeEntry>,
    i: usize,
    fuel: usize,
    acc: &mut Vec<Vec<u8>>,
) -> (r: Result<(), GitError>)
    requires
        i <= entries@.len(),
        entry_hashes_wf(entry_views(entries@)),
        no_dup_seqs(old(acc).deep_view()),
    ensures
        no_dup_seqs(final(acc).deep_view()),
        ({
            let res = spec_traverse(store@, entry_views(entries@).skip(i as int), fuel as nat);
            match r {
                Ok(u) => res is Ok && final(acc).deep_view().to_set() == old(
                    acc,
                ).deep_view().to_set().union(res->Ok_0),
                Err(e) => res == Err::<Set<Seq<u8>>, GitError>(e),
            }
        }),
    decreases fuel, entries@.len() - i,
{
    let ghost es = entry_views(entries@).skip(i as int);
    if i == entries.len() {
        proof {
            assert(es.len() == 0);
            assert(final(acc).deep_view().to_set() =~= old(acc).deep_view().to_set().union(
                Set::empty(),
            ));
        }
        return Ok(());
    }
    proof {
        assert(es[0] == entries@[i as int]@);
        assert(es.drop_first() =~= entry_views(entries@).skip(i + 1));
    }
    let entry = &entries[i];
    if entry.mode != SUBTREE_MODE {
        let ghost acc0 = acc.deep_view();
        if !contains_bytes(acc, &entry.hash) {
            let h = slice_to_vec(entry.hash.as_slice());
            acc.push(h);
            proof {
                assert(acc.deep_view() =~~= acc0.push(entry.hash@));
                assert forall|a: int, b: int|
                    0 <= a < b < acc.deep_view().len() implies acc.deep_view()[a]
                    != acc.deep_view()[b] by {
                    if b < acc0.len() {
                    } else {
                        assert(acc.deep_view()[b] == entry.hash@);
                        assert(!acc0.contains(entry.hash@));
                        assert(acc.deep_view()[a] == acc0[a]);
                    }
                }
                lemma_push_to_set(acc0, entry.hash@);
                assert(acc.deep_view().to_set() =~= acc0.to_set().insert(entry.hash@));
            }
        } else {
            proof {
                assert(acc.deep_view().contains(entry.hash@));
                assert(acc.deep_view().to_set().contains(entry.hash@));
                assert(acc.deep_view().to_set() =~= acc0.to_set().insert(entry.hash@));
            }
        }
        let ghost acc1 = acc.deep_view();
        let r = traverse_rec(store, entries, i + 1, fuel, acc);
        proof {
            if r is Ok {
                let rest_set = spec_traverse(store@, es.drop_first(), fuel as nat)->Ok_0;
                assert(acc.deep_view().to_set() =~= acc0.to_set().union(
                    rest_set.insert(es[0].hash),
                ));
            }
        }
        return r;
    }
    assert(entry.hash@.len() == 40);
    let obj = match store.read(&entry.hash) {
        Ok(o) => o,
        Err(e) => {
            return Err(e);
        },
    };
    if !matches!(obj.kind, Kind::Tree) {
        return Err(GitError::WrongKind);
    }
    let sub = match Tree::read(&obj.payload) {
        Ok(t) => t,
        Err(e) => {
            return Err(e);
        },
    };
    if fuel == 0 {
        return Err(GitError::DepthExceeded);
    }
    proof {
        lemma_parse_tree_hashes(obj.payload@, 0);
        assert(sub@.skip(0) =~= sub@);
    }
    let ghost acc0 = acc.deep_view();
    match traverse_rec(store, &sub.entries, 0, fuel - 1, acc) {
        Ok(_) => {},
        Err(e) => {
            return Err(e);
        },
    }
    let ghost acc1 = acc.deep_view();
    let r = traverse_rec(store, entries, i + 1, fuel, acc);
    proof {
        if r is Ok {
            let s1 = spec_traverse(store@, sub@, (fuel - 1) as nat)->Ok_0;
            let s2 = spec_traverse(store@, es.drop_first(), fuel as nat)->Ok_0;
            assert(acc.deep_view().to_set() =~= acc0.to_set().union(s1.union(s2)));
        }
    }
    r
}

impl TreeEntry {
    /// Decodes one record at `at`, returning the entry and the position just
    /// past its digest bytes.
    pub fn read(data: &Vec<u8>, at: usize) -> (r: Result<(TreeEntry, usize), GitError>)
        requires
            at <= data@.len(),
        ensures
            match r {
                Ok(p) => spec_parse_entry(data@, at as int) == Ok::<(TreeEntryV, int), GitError>(
                    (p.0@, p.1 as int),
                ) && at < p.1 <= data@.len(),
                Err(e) => spec_parse_entry(data@, at as int) == Err::<(TreeEntryV, int), GitError>(
                    e,
                ),
            },
    {
        let z = match find_byte(data, at, 0) {
            Some(z) => z,
            None => {
                return Err(GitError::Truncated);
            },
        };
        let header = slice_to_vec(slice_subrange(data.as_slice(), at, z));
        proof {
            assert(header@ =~= data@.subrange(at as int, z as int));
        }
        let sp = match find_byte(&header, 0, 32) {
            Some(sp) => sp,
            None => {
                return Err(GitError::CorruptHeader);
            },
        };
        let mode64 = match parse_decimal(&header, 0, sp) {
            Some(v) => v,
            None => {
                proof {
                    assert(header@.subrange(0, sp as int) =~= header@.take(sp as int));
                }
                return Err(GitError::CorruptHeader);
            },
        };
        proof {
            assert(header@.subrange(0, sp as int) =~= header@.take(sp as int));
        }
        if mode64 > 0xffffffff {
            return Err(GitError::CorruptHeader);
        }
        if data.len() - z < 21 {
            return Err(GitError::Truncated);
        }
        let filename = slice_to_vec(slice_subrange(header.as_slice(), sp + 1, header.len()));
        let raw = slice_subrange(data.as_slice(), z + 1, z + 21);
        let hash = hex_encode(raw);
        let entry = TreeEntry { mode: mode64 as u32, filename, hash };
        proof {
            assert(entry@.filename =~= header@.subrange(sp + 1, header@.len() as int));
            assert(raw@ =~= data@.subrange(z + 1, z + 21));
        }
        Ok((entry, z + 21))
    }
}

impl Tree {
    /// Decodes a whole byte stream of records, in order. An empty stream is
    /// an empty tree.
    pub fn read(data: &Vec<u8>) -> (r: Result<Tree, GitError>)
        ensures
            match r {
                Ok(t) => spec_parse_tree(data@, 0) == Ok::<Seq<TreeEntryV>, GitError>(t@),
                Err(e) => spec_parse_tree(data@, 0) == Err::<Seq<TreeEntryV>, GitError>(e),
            },
    {
        let mut entries: Vec<TreeEntry> = Vec::new();
        let mut at: usize = 0;
        loop
            invariant
                at <= data@.len(),
                ({
                    let whole = spec_parse_tree(data@, 0);
                    match spec_parse_tree(data@, at as int) {
                        Ok(rest) => whole == Ok::<Seq<TreeEntryV>, GitError>(
                            entry_views(entries@) + rest,
                        ),
                        Err(e) => whole == Err::<Seq<TreeEntryV>, GitError>(e),
                    }
                }),
            decreases data@.len() - at,
        {
            if at == data.len() {
                proof {
                    assert(entry_views(entries@) + Seq::<TreeEntryV>::empty() =~= entry_views(
                        entries@,
                    ));
                }
                return Ok(Tree { entries });
            }
            let (entry, at2) = match TreeEntry::read(data, at) {
                Ok(p) => p,
                Err(e) => {
                    return Err(e);
                },
            };
            proof {
                let ghost ev = entry_views(entries@);
                assert(entry_views(entries@.push(entry)) =~= ev.push(entry@));
                match spec_parse_tree(data@, at2 as int) {
                    Ok(rest) => {
                        assert(ev + (seq![entry@] + rest) =~= ev.push(entry@) + rest);
                    },
                    Err(_) => {},
                }
            }
            entries.push(entry);
            at = at2;
        }
    }

    /// Flattens this tree against a store: the digests of its non-subtree
    /// entries together with everything below its subtree entries, each
    /// subtree resolved through the store and decoded as a tree. The result
    /// lists each reached digest exactly once. The nesting depth a store of
    /// acyclic trees can exhibit is bounded by its object count, which is the
    /// fuel the traversal spends.
    pub fn traverse(&self, store: &ObjectStore) -> (r: Result<Vec<Vec<u8>>, GitError>)
        requires
            entry_hashes_wf(self@),
        ensures
            ({
                let res = spec_traverse(store@, self@, store@.len());
                match r {
                    Ok(vs) => res is Ok && vs.deep_view().to_set() == res->Ok_0 && no_dup_seqs(
                        vs.deep_view(),
                    ),
                    Err(e) => res == Err::<Set<Seq<u8>>, GitError>(e),
                }
            }),
    {
        let mut acc: Vec<Vec<u8>> = Vec::new();
        proof {
            assert(acc.deep_view() =~= Seq::<Seq<u8>>::empty());
            assert(self@.skip(0) =~= self@);
        }
        let fuel = store.count();
        match traverse_rec(store, &self.entries, 0, fuel, &mut acc) {
            Ok(_) => {
                proof {
                    if spec_traverse(store@, self@, store@.len()) is Ok {
                        let s = spec_traverse(store@, self@, store@.len())->Ok_0;
                        assert(acc.deep_view().to_set() =~= Seq::<
                            Seq<u8>,
                        >::empty().to_set().union(s));
                    }
                }
                Ok(acc)
            },
            Err(e) => Err(e),
        }
    }
}

} // verus!
