//! Commits: a structured header of five fixed lines followed by the message
//! body.
//!
//! The header holds, in order, the tree line, the parent line, the author
//! line, the committer line and a separator line; everything after the
//! separator is the message.

use vstd::prelude::*;

use crate::bytes::{
    copy_bytes, is_ws, is_ws_exec, spec_find, trim_end_range, trim_end_spec, find_byte,
};
use crate::errors::GitError;
use crate::object::Kind;
use crate::store::{spec_read, ObjectStore};
use vstd::slice::{slice_subrange, slice_to_vec};

verus! {

/// A decoded commit. The author and committer names join the given and
/// family name with one space, as the identity lines carry them.
#[derive(Debug)]
pub struct Commit {
    pub tree: Vec<u8>,
    pub parent: Vec<u8>,
    pub author: Vec<u8>,
    pub author_email: Vec<u8>,
    pub author_time: Vec<u8>,
    pub author_offset: Vec<u8>,
    pub committer: Vec<u8>,
    pub committer_email: Vec<u8>,
    pub committer_time: Vec<u8>,
    pub committer_offset: Vec<u8>,
    pub message: Vec<u8>,
}

/// The mathematical shadow of a `Commit`.
pub struct CommitV {
    pub tree: Seq<u8>,
    pub parent: Seq<u8>,
    pub author: Seq<u8>,
    pub author_email: Seq<u8>,
    pub author_time: Seq<u8>,
    pub author_offset: Seq<u8>,
    pub committer: Seq<u8>,
    pub committer_email: Seq<u8>,
    pub committer_time: Seq<u8>,
    pub committer_offset: Seq<u8>,
    pub message: Seq<u8>,
}

impl View for Commit {
    type V = CommitV;

    open spec fn view(&self) -> CommitV {
        CommitV {
            tree: self.tree@,
            parent: self.parent@,
            author: self.author@,
            author_email: self.author_email@,
            author_time: self.author_time@,
            author_offset: self.author_offset@,
            committer: self.committer@,
            committer_email: self.committer_email@,
            committer_time: self.committer_time@,
            committer_offset: self.committer_offset@,
            message: self.message@,
        }
    }
}

/// The position just past the line that starts at `from`: past the next
/// newline, or the end of the stream.
pub open spec fn line_end(data: Seq<u8>, from: int) -> int {
    match spec_find(data, from, 10u8) {
        Some(i) => i + 1,
        None => data.len() as int,
    }
}

/// The first position at or after `i` that holds a non-whitespace byte, or
/// the end.
pub open spec fn skip_ws(s: Seq<u8>, i: int) -> int
    decreases s.len() - i,
{
    if i < 0 || i >= s.len() {
        s.len() as int
    } else if is_ws(s[i]) {
        skip_ws(s, i + 1)
    } else {
        i
    }
}

/// The first position at or after `i` that holds a whitespace byte, or the
/// end.
pub open spec fn skip_tok(s: Seq<u8>, i: int) -> int
    decreases s.len() - i,
{
    if i < 0 || i >= s.len() {
        s.len() as int
    } else if !is_ws(s[i]) {
        skip_tok(s, i + 1)
    } else {
        i
    }
}

/// The whitespace-delimited tokens of `s`, scanning from `i`.
pub open spec fn tokens_from(s: Seq<u8>, i: int) -> Seq<Seq<u8>>
    decreases s.len() - i,
{
    let a = skip_ws(s, i);
    if a >= s.len() {
        Seq::empty()
    } else {
        let b = skip_tok(s, a);
        if i <= a < b <= s.len() {
            seq![s.subrange(a, b)] + tokens_from(s, b)
        } else {
            Seq::empty()
        }
    }
}

/// The whitespace-delimited tokens of `s`.
pub open spec fn tokens(s: Seq<u8>) -> Seq<Seq<u8>> {
    tokens_from(s, 0)
}

/// What decoding a commit's payload yields: the five header lines in fixed
/// order, then the rest of the stream as the message. A tree or parent line
/// without a space is a corrupt header; an identity line whose token count
/// is not exactly six is a malformed identity.
pub open spec fn spec_parse_commit(data: Seq<u8>) -> Result<CommitV, GitError> {
    let e1 = line_end(data, 0);
    let e2 = line_end(data, e1);
    let e3 = line_end(data, e2);
    let e4 = line_end(data, e3);
    let e5 = line_end(data, e4);
    let l1 = data.subrange(0, e1);
    let l2 = data.subrange(e1, e2);
    let l3 = data.subrange(e2, e3);
    let l4 = data.subrange(e3, e4);
    match spec_find(l1, 0, 32u8) {
        None => Err(GitError::CorruptHeader),
        Some(sp1) => {
            match spec_find(l2, 0, 32u8) {
                None => Err(GitError::CorruptHeader),
                Some(sp2) => {
                    let t3 = tokens(l3);
                    let t4 = tokens(l4);
                    if t3.len() != 6 || t4.len() != 6 {
                        Err(GitError::MalformedIdentity)
                    } else {
                        Ok(
                            CommitV {
                                tree: trim_end_spec(l1.subrange(sp1 + 1, l1.len() as int)),
                                parent: trim_end_spec(l2.subrange(sp2 + 1, l2.len() as int)),
                                author: t3[1] + seq![32u8] + t3[2],
                                author_email: t3[3],
                                author_time: t3[4],
                                author_offset: t3[5],
                                committer: t4[1] + seq![32u8] + t4[2],
                                committer_email: t4[3],
                                committer_time: t4[4],
                                committer_offset: t4[5],
                                message: data.subrange(e5, data.len() as int),
                            },
                        )
                    }
                },
            }
        },
    }
}

/// The position just past the line that starts at `from`.
fn line_end_exec(data: &Vec<u8>, from: usize) -> (r: usize)
    requires
        from <= data@.len(),
    ensures
        r == line_end(data@, from as int),
        from <= r <= data@.len(),
{
    let n = data.len();
    match find_byte(data, from, 10) {
        Some(i) => {
            assert(i < n);
            i + 1
        },
        None => n,
    }
}

/// The whitespace-delimited tokens of `line@`.
fn tokenize(line: &Vec<u8>) -> (r: Vec<Vec<u8>>)
    ensures
        r.deep_view() == tokens(line@),
{
    let s = line;
    let mut out: Vec<Vec<u8>> = Vec::new();
    let mut i: usize = 0;
    proof {
        assert(out.deep_view() =~= Seq::<Seq<u8>>::empty());
        assert(Seq::<Seq<u8>>::empty() + tokens_from(line@, 0) =~= tokens_from(line@, 0));
    }
    loop
        invariant
            i <= s@.len(),
            s == line,
            tokens(line@) == out.deep_view() + tokens_from(s@, i as int),
        decreases s@.len() - i,
    {
        let mut a = i;
        while a < s.len() && is_ws_exec(s[a])
            invariant
                i <= a <= s@.len(),
                skip_ws(s@, i as int) == skip_ws(s@, a as int),
            decreases s@.len() - a,
        {
            a = a + 1;
        }
        assert(skip_ws(s@, i as int) == a);
        if a == s.len() {
            proof {
                assert(tokens_from(s@, i as int) =~= Seq::<Seq<u8>>::empty());
                assert(out.deep_view() + Seq::<Seq<u8>>::empty() =~= out.deep_view());
            }
            return out;
        }
        let mut b = a;
        while b < s.len() && !is_ws_exec(s[b])
            invariant
                a <= b <= s@.len(),
                skip_tok(s@, a as int) == skip_tok(s@, b as int),
            decreases s@.len() - b,
        {
            b = b + 1;
        }
        assert(skip_tok(s@, a as int) == b);
        assert(a < b) by {
            assert(!is_ws(s@[a as int]));
        }
        let tok = slice_to_vec(slice_subrange(s.as_slice(), a, b));
        let ghost out0 = out.deep_view();
        out.push(tok);
        proof {
            assert(out.deep_view() =~~= out0.push(s@.subrange(a as int, b as int)));
            assert(tokens_from(s@, i as int) =~= seq![s@.subrange(a as int, b as int)]
                + tokens_from(s@, b as int));
            assert(out0 + tokens_from(s@, i as int) =~= out.deep_view() + tokens_from(
                s@,
                b as int,
            ));
        }
        i = b;
    }
}

impl Commit {
    /// Decodes a commit payload: tree line, parent line, author line,
    /// committer line, a separator line, then the message.
    pub fn read(data: &Vec<u8>) -> (r: Result<Commit, GitError>)
        ensures
            match r {
                Ok(c) => spec_parse_commit(data@) == Ok::<CommitV, GitError>(c@),
                Err(e) => spec_parse_commit(data@) == Err::<CommitV, GitError>(e),
            },
    {
        let e1 = line_end_exec(data, 0);
        let e2 = line_end_exec(data, e1);
        let e3 = line_end_exec(data, e2);
        let e4 = line_end_exec(data, e3);
        let e5 = line_end_exec(data, e4);
        let l1 = slice_to_vec(slice_subrange(data.as_slice(), 0, e1));
        let l2 = slice_to_vec(slice_subrange(data.as_slice(), e1, e2));
        let l3 = slice_to_vec(slice_subrange(data.as_slice(), e2, e3));
        let l4 = slice_to_vec(slice_subrange(data.as_slice(), e3, e4));
        proof {
            assert(l1@ =~= data@.subrange(0, e1 as int));
            assert(l2@ =~= data@.subrange(e1 as int, e2 as int));
            assert(l3@ =~= data@.subrange(e2 as int, e3 as int));
            assert(l4@ =~= data@.subrange(e3 as int, e4 as int));
        }
        let sp1 = match find_byte(&l1, 0, 32) {
            Some(i) => i,
            None => {
                return Err(GitError::CorruptHeader);
            },
        };
        let sp2 = match find_byte(&l2, 0, 32) {
            Some(i) => i,
            None => {
                return Err(GitError::CorruptHeader);
            },
        };
        let t3 = tokenize(&l3);
        let t4 = tokenize(&l4);
        if t3.len() != 6 || t4.len() != 6 {
            proof {
                assert(t3.deep_view().len() == t3@.len());
                assert(t4.deep_view().len() == t4@.len());
            }
            return Err(GitError::MalformedIdentity);
        }
        proof {
            assert(t3.deep_view().len() == t3@.len());
            assert(t4.deep_view().len() == t4@.len());
        }
        let author = join_name(&t3[1], &t3[2]);
        let committer = join_name(&t4[1], &t4[2]);
        let message = slice_to_vec(slice_subrange(data.as_slice(), e5, data.len()));
        let c = Commit {
            tree: trim_end_range(&l1, sp1 + 1, l1.len()),
            parent: trim_end_range(&l2, sp2 + 1, l2.len()),
            author,
            author_email: copy_bytes(&t3[3]),
            author_time: copy_bytes(&t3[4]),
            author_offset: copy_bytes(&t3[5]),
            committer,
            committer_email: copy_bytes(&t4[3]),
            committer_time: copy_bytes(&t4[4]),
            committer_offset: copy_bytes(&t4[5]),
            message,
        };
        proof {
            assert(l1@.subrange(sp1 + 1, l1@.len() as int) =~= l1@.subrange(
                sp1 + 1,
                l1@.len() as int,
            ));
            assert(message@ =~= data@.subrange(e5 as int, data@.len() as int));
            assert(t3.deep_view()[1] == t3@[1]@);
            assert(t3.deep_view()[2] == t3@[2]@);
            assert(t3.deep_view()[3] == t3@[3]@);
            assert(t3.deep_view()[4] == t3@[4]@);
            assert(t3.deep_view()[5] == t3@[5]@);
            assert(t4.deep_view()[1] == t4@[1]@);
            assert(t4.deep_view()[2] == t4@[2]@);
            assert(t4.deep_view()[3] == t4@[3]@);
            assert(t4.deep_view()[4] == t4@[4]@);
            assert(t4.deep_view()[5] == t4@[5]@);
        }
        Ok(c)
    }

    /// Resolves a digest in the store, checks that the object is a commit,
    /// and decodes its payload.
    pub fn read_from_hash(store: &ObjectStore, hash: &Vec<u8>) -> (r: Result<Commit, GitError>)
        requires
            hash@.len() >= 2,
        ensures
            match spec_read(store@, hash@) {
                Err(e) => r is Err && r->Err_0 == e,
                Ok(ko) => {
                    if ko.0 != Kind::Commit {
                        r == Err::<Commit, GitError>(GitError::WrongKind)
                    } else {
                        match r {
                            Ok(c) => spec_parse_commit(ko.1) == Ok::<CommitV, GitError>(c@),
                            Err(e) => spec_parse_commit(ko.1) == Err::<CommitV, GitError>(e),
                        }
                    }
                },
            },
    {
        let obj = match store.read(hash) {
            Ok(o) => o,
            Err(e) => {
                return Err(e);
            },
        };
        if !matches!(obj.kind, Kind::Commit) {
            return Err(GitError::WrongKind);
        }
        Commit::read(&obj.payload)
    }
}

/// The given and family name joined by one space.
fn join_name(given: &Vec<u8>, family: &Vec<u8>) -> (r: Vec<u8>)
    ensures
        r@ == given@ + seq![32u8] + family@,
{
    let mut out = slice_to_vec(given.as_slice());
    out.push(32);
    out.extend_from_slice(family.as_slice());
    proof {
        assert(out@ =~= given@ + seq![32u8] + family@);
    }
    out
}

} // verus!
