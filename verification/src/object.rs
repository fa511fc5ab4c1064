//! Typed objects and their framed byte representation.
//!
//! An object is a kind (blob, tree or commit) together with a payload. On
//! disk it is stored as the zlib-deflated form of
//! `"<kind-name> <decimal length>\0" + payload`.

use vstd::prelude::*;

use crate::bytes::{
    dec_digits, dec_val, is_dec_digits, lemma_dec_round_trip, lemma_find_at, parse_decimal,
    spec_find, u64_to_decimal, find_byte,
};
use crate::errors::GitError;
use vstd::slice::{slice_subrange, slice_to_vec};

verus! {

/// The three object kinds.
#[derive(Clone, Copy, Debug, PartialEq, Eq, Structural)]
pub enum Kind {
    Blob,
    Tree,
    Commit,
}

/// The name under which a kind appears in a framing header.
pub open spec fn kind_name(k: Kind) -> Seq<u8> {
    match k {
        Kind::Blob => seq![98u8, 108u8, 111u8, 98u8],
        Kind::Tree => seq![116u8, 114u8, 101u8, 101u8],
        Kind::Commit => seq![99u8, 111u8, 109u8, 109u8, 105u8, 116u8],
    }
}

/// The kind a header name denotes, if any.
pub open spec fn spec_kind_of(name: Seq<u8>) -> Option<Kind> {
    if name == kind_name(Kind::Blob) {
        Some(Kind::Blob)
    } else if name == kind_name(Kind::Tree) {
        Some(Kind::Tree)
    } else if name == kind_name(Kind::Commit) {
        Some(Kind::Commit)
    } else {
        None
    }
}

/// The framed representation of an object: kind name, a space, the decimal
/// payload length, a NUL byte, then the payload itself.
pub open spec fn frame_spec(k: Kind, payload: Seq<u8>) -> Seq<u8> {
    kind_name(k) + seq![32u8] + dec_digits(payload.len()) + seq![0u8] + payload
}

/// What decoding a framed byte sequence yields: the kind and payload, or the
/// first error the header exhibits. The declared length must match the
/// payload exactly.
pub open spec fn spec_parse_object(f: Seq<u8>) -> Result<(Kind, Seq<u8>), GitError> {
    match spec_find(f, 0, 0u8) {
        None => Err(GitError::CorruptHeader),
        Some(z) => {
            let header = f.take(z);
            match spec_find(header, 0, 32u8) {
                None => Err(GitError::CorruptHeader),
                Some(sp) => {
                    let name = header.take(sp);
                    let digits = header.subrange(sp + 1, header.len() as int);
                    if !is_dec_digits(digits) || dec_val(digits) > u64::MAX {
                        Err(GitError::CorruptHeader)
                    } else {
                        match spec_kind_of(name) {
                            None => Err(GitError::UnknownKind),
                            Some(k) => {
                                if dec_val(digits) != f.len() - z - 1 {
                                    Err(GitError::CorruptHeader)
                                } else {
                                    Ok((k, f.subrange(z + 1, f.len() as int)))
                                }
                            },
                        }
                    }
                },
            }
        },
    }
}

/// Every byte of a kind name is a lowercase letter, so neither a NUL nor a
/// space.
pub proof fn lemma_kind_name_bytes(k: Kind)
    ensures
        forall|i: int| 0 <= i < kind_name(k).len() ==> 97 <= #[trigger] kind_name(k)[i] <= 122,
{
}

/// Framing an object and decoding the frame yields the object back.
pub proof fn lemma_parse_frame(k: Kind, payload: Seq<u8>)
    requires
        payload.len() <= u64::MAX,
    ensures
        spec_parse_object(frame_spec(k, payload)) == Ok::<(Kind, Seq<u8>), GitError>((k, payload)),
{
    let f = frame_spec(k, payload);
    let name = kind_name(k);
    let digits = dec_digits(payload.len());
    let z: int = (name.len() + 1 + digits.len()) as int;
    lemma_dec_round_trip(payload.len());
    lemma_kind_name_bytes(k);
    assert(f[z] == 0);
    assert forall|j: int| 0 <= j < z implies f[j] != 0 by {
        if j < name.len() {
            assert(f[j] == name[j]);
        } else if j == name.len() {
            assert(f[j] == 32);
        } else {
            assert(f[j] == digits[j - name.len() - 1]);
            assert(48 <= digits[j - name.len() - 1] <= 57);
        }
    }
    lemma_find_at(f, 0, z, 0);
    let header = f.take(z);
    assert(header =~= name + seq![32u8] + digits);
    let sp = name.len() as int;
    assert(header[sp] == 32);
    assert forall|j: int| 0 <= j < sp implies header[j] != 32 by {
        assert(header[j] == name[j]);
    }
    lemma_find_at(header, 0, sp, 32);
    assert(header.take(sp) =~= name);
    assert(header.subrange(sp + 1, header.len() as int) =~= digits);
    assert(spec_kind_of(name) == Some(k)) by {
        if k == Kind::Tree {
            assert(kind_name(Kind::Tree)[0] != kind_name(Kind::Blob)[0]);
        }
        if k == Kind::Commit {
            assert(kind_name(Kind::Commit).len() != kind_name(Kind::Blob).len());
            assert(kind_name(Kind::Commit).len() != kind_name(Kind::Tree).len());
        }
    }
    assert(dec_val(digits) == payload.len());
    assert(f.len() - z - 1 == payload.len());
    assert(f.subrange(z + 1, f.len() as int) =~= payload);
}

/// An object held in memory: its kind, declared length, and payload.
#[derive(Debug)]
pub struct Object {
    pub kind: Kind,
    pub len: u64,
    pub payload: Vec<u8>,
}

impl Object {
    /// The declared length always matches the payload.
    pub open spec fn wf(&self) -> bool {
        self.len == self.payload@.len()
    }
}

/// The kind name as bytes.
pub fn kind_name_vec(k: Kind) -> (r: Vec<u8>)
    ensures
        r@ == kind_name(k),
{
    let mut out: Vec<u8> = Vec::new();
    match k {
        Kind::Blob => {
            out.push(98);
            out.push(108);
            out.push(111);
            out.push(98);
        },
        Kind::Tree => {
            out.push(116);
            out.push(114);
            out.push(101);
            out.push(101);
        },
        Kind::Commit => {
            out.push(99);
            out.push(111);
            out.push(109);
            out.push(109);
            out.push(105);
            out.push(116);
        },
    }
    proof {
        assert(out@ =~= kind_name(k));
    }
    out
}

/// Whether `data[from..to]` equals `pat`.
pub fn range_eq(data: &Vec<u8>, from: usize, to: usize, pat: &Vec<u8>) -> (r: bool)
    requires
        from <= to <= data@.len(),
    ensures
        r == (data@.subrange(from as int, to as int) == pat@),
{
    let ghost sub = data@.subrange(from as int, to as int);
    if to - from != pat.len() {
        assert(sub.len() != pat@.len());
        return false;
    }
    let mut i: usize = 0;
    while i < pat.len()
        invariant
            from <= to <= data@.len(),
            to - from == pat@.len(),
            i <= pat@.len(),
            sub == data@.subrange(from as int, to as int),
            forall|j: int| 0 <= j < i ==> sub[j] == pat@[j],
        decreases pat@.len() - i,
    {
        if data[from + i] != pat[i] {
            assert(sub[i as int] != pat@[i as int]);
            return false;
        }
        assert(sub[i as int] == pat@[i as int]);
        i = i + 1;
    }
    proof {
        assert(sub =~= pat@);
    }
    true
}

/// The kind denoted by `data[from..to]`, if any.
pub fn kind_of(data: &Vec<u8>, from: usize, to: usize) -> (r: Option<Kind>)
    requires
        from <= to <= data@.len(),
    ensures
        r == spec_kind_of(data@.subrange(from as int, to as int)),
{
    let ghost sub = data@.subrange(from as int, to as int);
    let blob = kind_name_vec(Kind::Blob);
    if range_eq(data, from, to, &blob) {
        return Some(Kind::Blob);
    }
    let tree = kind_name_vec(Kind::Tree);
    if range_eq(data, from, to, &tree) {
        return Some(Kind::Tree);
    }
    let commit = kind_name_vec(Kind::Commit);
    if range_eq(data, from, to, &commit) {
        return Some(Kind::Commit);
    }
    None
}

/// Builds the framed representation of an object.
pub fn encode_frame(k: Kind, payload: &Vec<u8>) -> (r: Vec<u8>)
    ensures
        r@ == frame_spec(k, payload@),
{
    let mut out = kind_name_vec(k);
    out.push(32);
    let mut digits = u64_to_decimal(payload.len() as u64);
    out.append(&mut digits);
    out.push(0);
    out.extend_from_slice(payload.as_slice());
    proof {
        assert(out@ =~= frame_spec(k, payload@));
    }
    out
}

/// Decodes a framed byte sequence into an object.
pub fn parse_object(f: &Vec<u8>) -> (r: Result<Object, GitError>)
    ensures
        match r {
            Ok(o) => spec_parse_object(f@) == Ok::<(Kind, Seq<u8>), GitError>((o.kind, o.payload@))
                && o.len == o.payload@.len(),
            Err(e) => spec_parse_object(f@) == Err::<(Kind, Seq<u8>), GitError>(e),
        },
{
    let z = match find_byte(f, 0, 0) {
        Some(z) => z,
        None => {
            return Err(GitError::CorruptHeader);
        },
    };
    let header = slice_to_vec(slice_subrange(f.as_slice(), 0, z));
    proof {
        assert(header@ =~= f@.take(z as int));
    }
    let sp = match find_byte(&header, 0, 32) {
        Some(sp) => sp,
        None => {
            return Err(GitError::CorruptHeader);
        },
    };
    let ghost digits = header@.subrange(sp + 1, header@.len() as int);
    let num = match parse_decimal(&header, sp + 1, header.len()) {
        Some(v) => v,
        None => {
            return Err(GitError::CorruptHeader);
        },
    };
    let k = match kind_of(&header, 0, sp) {
        Some(k) => k,
        None => {
            assert(header@.take(sp as int) =~= header@.subrange(0, sp as int));
            return Err(GitError::UnknownKind);
        },
    };
    proof {
        assert(header@.take(sp as int) =~= header@.subrange(0, sp as int));
    }
    let payload_len = f.len() - z - 1;
    if num != payload_len as u64 {
        return Err(GitError::CorruptHeader);
    }
    let payload = slice_to_vec(slice_subrange(f.as_slice(), z + 1, f.len()));
    proof {
        assert(payload@ =~= f@.subrange(z + 1, f@.len() as int));
    }
    Ok(Object { kind: k, len: num, payload })
}

} // verus!
