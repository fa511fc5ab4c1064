//! The staging-area (index) codec: a binary reader and writer for the index
//! file, the stat-based entry builder, and the dirtiness predicate.
//!
//! The file is a 4-byte signature, a big-endian version, a big-endian entry
//! count, and that many records. Each record is ten big-endian 32-bit words,
//! a 20-byte digest, a 2-byte flags word, a NUL-terminated path, and NUL
//! padding that aligns the span from the digest through the padding to eight
//! bytes.

use vstd::prelude::*;

use crate::bytes::{
    be_bytes_of, be_u16_of, be_u32_of, bytes_eq, push_u32, read_u32, spec_find, find_byte,
};
use crate::digest::{hex_decode, hex_encode, hex_of, is_hex40};
use crate::errors::GitError;
use vstd::slice::{slice_subrange, slice_to_vec};

verus! {

/// One staged file's snapshot: filesystem metadata, a content digest in hex,
/// an opaque flags word, and the repository-relative path.
#[derive(Debug)]
pub struct IndexEntry {
    pub ctime_seconds: u32,
    pub ctime_nanoseconds: u32,
    pub mtime_seconds: u32,
    pub mtime_nanoseconds: u32,
    pub device: u32,
    pub inode: u32,
    pub object_type: u8,
    pub unix_permission: u16,
    pub user_id: u32,
    pub group_id: u32,
    pub file_size: u32,
    pub hash: Vec<u8>,
    pub flags: u16,
    pub entry_path: Vec<u8>,
}

/// The mathematical shadow of an `IndexEntry`.
pub struct IndexEntryV {
    pub ctime_seconds: u32,
    pub ctime_nanoseconds: u32,
    pub mtime_seconds: u32,
    pub mtime_nanoseconds: u32,
    pub device: u32,
    pub inode: u32,
    pub object_type: u8,
    pub unix_permission: u16,
    pub user_id: u32,
    pub group_id: u32,
    pub file_size: u32,
    pub hash: Seq<u8>,
    pub flags: u16,
    pub entry_path: Seq<u8>,
}

impl View for IndexEntry {
    type V = IndexEntryV;

    open spec fn view(&self) -> IndexEntryV {
        IndexEntryV {
            ctime_seconds: self.ctime_seconds,
            ctime_nanoseconds: self.ctime_nanoseconds,
            mtime_seconds: self.mtime_seconds,
            mtime_nanoseconds: self.mtime_nanoseconds,
            device: self.device,
            inode: self.inode,
            object_type: self.object_type,
            unix_permission: self.unix_permission,
            user_id: self.user_id,
            group_id: self.group_id,
            file_size: self.file_size,
            hash: self.hash@,
            flags: self.flags,
            entry_path: self.entry_path@,
        }
    }
}

/// The views of a sequence of entries.
pub open spec fn index_entry_views(s: Seq<IndexEntry>) -> Seq<IndexEntryV> {
    s.map(|i: int, e: IndexEntry| e@)
}

/// The staging-area file: signature, version, and the staged entries in
/// order.
#[derive(Debug)]
pub struct IndexFile {
    pub signature: Vec<u8>,
    pub version: u32,
    pub entries: Vec<IndexEntry>,
}

/// The mathematical shadow of an `IndexFile`.
pub struct IndexFileV {
    pub signature: Seq<u8>,
    pub version: u32,
    pub entries: Seq<IndexEntryV>,
}

impl View for IndexFile {
    type V = IndexFileV;

    open spec fn view(&self) -> IndexFileV {
        IndexFileV {
            signature: self.signature@,
            version: self.version,
            entries: index_entry_views(self.entries@),
        }
    }
}

/// The index signature bytes, `"DIRC"`.
pub open spec fn dirc_signature() -> Seq<u8> {
    seq![68u8, 73u8, 82u8, 67u8]
}

/// The type nibble of a mode word: its bits 12 to 15.
pub open spec fn type_nibble(mode: u32) -> u8 {
    ((mode / 4096) % 16) as u8
}

/// The permission bits of a mode word: its low nine bits.
pub open spec fn perm_bits(mode: u32) -> u16 {
    (mode % 512) as u16
}

/// The mode word a type nibble and permission field pack into.
pub open spec fn mode_word(object_type: u8, unix_permission: u16) -> u32
    recommends
        object_type < 16,
        unix_permission < 512,
{
    ((object_type as u32) * 4096 + (unix_permission as u32)) as u32
}

/// How many NUL padding bytes follow a path of `path_nul_len` bytes
/// (terminator included): what aligns the digest, flags, path and padding
/// span to a multiple of eight.
pub open spec fn pad_len(path_nul_len: int) -> int {
    let rem = (path_nul_len + 22) % 8;
    if rem == 0 {
        0
    } else {
        8 - rem
    }
}

/// What decoding one record at `at` yields: the entry and the position just
/// past its padding.
#[verifier::opaque]
pub open spec fn spec_parse_index_entry(data: Seq<u8>, at: int) -> Result<
    (IndexEntryV, int),
    GitError,
> {
    if at < 0 || at + 62 > data.len() {
        Err(GitError::Truncated)
    } else {
        match spec_find(data, at + 62, 0u8) {
            None => Err(GitError::Truncated),
            Some(z) => {
                let path = data.subrange(at + 62, z);
                let next = z + 1 + pad_len(z + 1 - (at + 62));
                if next > data.len() {
                    Err(GitError::Truncated)
                } else {
                    let mode = be_u32_of(data.subrange(at + 24, at + 28));
                    Ok(
                        (
                            IndexEntryV {
                                ctime_seconds: be_u32_of(data.subrange(at, at + 4)),
                                ctime_nanoseconds: be_u32_of(data.subrange(at + 4, at + 8)),
                                mtime_seconds: be_u32_of(data.subrange(at + 8, at + 12)),
                                mtime_nanoseconds: be_u32_of(data.subrange(at + 12, at + 16)),
                                device: be_u32_of(data.subrange(at + 16, at + 20)),
                                inode: be_u32_of(data.subrange(at + 20, at + 24)),
                                object_type: type_nibble(mode),
                                unix_permission: perm_bits(mode),
                                user_id: be_u32_of(data.subrange(at + 28, at + 32)),
                                group_id: be_u32_of(data.subrange(at + 32, at + 36)),
                                file_size: be_u32_of(data.subrange(at + 36, at + 40)),
                                hash: hex_of(data.subrange(at + 40, at + 60)),
                                flags: be_u16_of(data.subrange(at + 60, at + 62)),
                                entry_path: path,
                            },
                            next,
                        ),
                    )
                }
            },
        }
    }
}

/// What decoding `n` records from `at` yields.
pub open spec fn spec_parse_entries(data: Seq<u8>, at: int, n: nat) -> Result<
    Seq<IndexEntryV>,
    GitError,
>
    decreases n,
{
    if n == 0 {
        Ok(Seq::empty())
    } else {
        match spec_parse_index_entry(data, at) {
            Err(e) => Err(e),
            Ok(head) => match spec_parse_entries(data, head.1, (n - 1) as nat) {
                Err(e) => Err(e),
                Ok(rest) => Ok(seq![head.0] + rest),
            },
        }
    }
}

/// What decoding a whole index file yields: its signature must read `DIRC`,
/// then the version, the entry count, and exactly that many records. Bytes
/// past the last record are ignored.
pub open spec fn spec_parse_index(data: Seq<u8>) -> Result<IndexFileV, GitError> {
    if data.len() < 4 {
        Err(GitError::Truncated)
    } else if data.take(4) != dirc_signature() {
        Err(GitError::BadSignature)
    } else if data.len() < 12 {
        Err(GitError::Truncated)
    } else {
        let version = be_u32_of(data.subrange(4, 8));
        let count = be_u32_of(data.subrange(8, 12));
        match spec_parse_entries(data, 12, count as nat) {
            Err(e) => Err(e),
            Ok(es) => Ok(IndexFileV { signature: data.take(4), version, entries: es }),
        }
    }
}

impl IndexEntry {
    /// Decodes one record at `at`, returning the entry and the position just
    /// past its padding.
    pub fn read_from_index(data: &Vec<u8>, at: usize) -> (r: Result<(IndexEntry, usize), GitError>)
        requires
            at <= data@.len(),
        ensures
            match r {
                Ok(p) => spec_parse_index_entry(data@, at as int) == Ok::<
                    (IndexEntryV, int),
                    GitError,
                >((p.0@, p.1 as int)) && at < p.1 <= data@.len(),
                Err(e) => spec_parse_index_entry(data@, at as int) == Err::<
                    (IndexEntryV, int),
                    GitError,
                >(e),
            },
    {
        proof {
            reveal(spec_parse_index_entry);
        }
        if data.len() - at < 62 {
            return Err(GitError::Truncated);
        }
        let z = match find_byte(data, at + 62, 0) {
            Some(z) => z,
            None => {
                return Err(GitError::Truncated);
            },
        };
        let path_nul_len = z + 1 - (at + 62);
        let rem = (path_nul_len + 22) % 8;
        let pad: usize = if rem == 0 {
            0
        } else {
            8 - rem
        };
        if data.len() - (z + 1) < pad {
            return Err(GitError::Truncated);
        }
        let next = z + 1 + pad;
        let mode = read_u32(data, at + 24);
        let flags_hi = data[at + 60];
        let flags_lo = data[at + 61];
        let flags: u16 = (flags_hi as u16) * 256 + (flags_lo as u16);
        proof {
            let fs = data@.subrange(at + 60, at + 62);
            assert(fs[0] == data@[at + 60] && fs[1] == data@[at + 61]);
        }
        let raw_hash = slice_subrange(data.as_slice(), at + 40, at + 60);
        let hash = hex_encode(raw_hash);
        let entry_path = slice_to_vec(slice_subrange(data.as_slice(), at + 62, z));
        let entry = IndexEntry {
            ctime_seconds: read_u32(data, at),
            ctime_nanoseconds: read_u32(data, at + 4),
            mtime_seconds: read_u32(data, at + 8),
            mtime_nanoseconds: read_u32(data, at + 12),
            device: read_u32(data, at + 16),
            inode: read_u32(data, at + 20),
            object_type: ((mode / 4096) % 16) as u8,
            unix_permission: (mode % 512) as u16,
            user_id: read_u32(data, at + 28),
            group_id: read_u32(data, at + 32),
            file_size: read_u32(data, at + 36),
            hash,
            flags,
            entry_path,
        };
        proof {
            assert(raw_hash@ =~= data@.subrange(at + 40, at + 60));
            assert(entry.entry_path@ =~= data@.subrange(at + 62, z as int));
        }
        Ok((entry, next))
    }
}

impl IndexFile {
    /// Decodes a whole index file image.
    #[verifier::rlimit(100)]
    pub fn read_from_index(data: &Vec<u8>) -> (r: Result<IndexFile, GitError>)
        ensures
            match r {
                Ok(f) => spec_parse_index(data@) == Ok::<IndexFileV, GitError>(f@),
                Err(e) => spec_parse_index(data@) == Err::<IndexFileV, GitError>(e),
            },
    {
        if data.len() < 4 {
            return Err(GitError::Truncated);
        }
        if !(data[0] == 68 && data[1] == 73 && data[2] == 82 && data[3] == 67) {
            proof {
                assert(data@.take(4) != dirc_signature());
            }
            return Err(GitError::BadSignature);
        }
        proof {
            assert(data@.take(4) =~= dirc_signature());
        }
        if data.len() < 12 {
            return Err(GitError::Truncated);
        }
        let version = read_u32(data, 4);
        let count = read_u32(data, 8);
        let signature = slice_to_vec(slice_subrange(data.as_slice(), 0, 4));
        proof {
            assert(signature@ =~= data@.take(4));
        }
        let mut entries: Vec<IndexEntry> = Vec::new();
        let mut at: usize = 12;
        let mut i: u32 = 0;
        proof {
            assert(index_entry_views(entries@) =~= Seq::<IndexEntryV>::empty());
        }
        while i < count
            invariant
                i <= count,
                12 <= at <= data@.len(),
                data@.take(4) == dirc_signature(),
                version == be_u32_of(data@.subrange(4, 8)),
                count == be_u32_of(data@.subrange(8, 12)),
                signature@ == data@.take(4),
                index_entry_views(entries@).len() == i,
                ({
                    let whole = spec_parse_entries(data@, 12, count as nat);
                    match spec_parse_entries(data@, at as int, (count - i) as nat) {
                        Ok(rest) => whole == Ok::<Seq<IndexEntryV>, GitError>(
                            index_entry_views(entries@) + rest,
                        ),
                        Err(e) => whole == Err::<Seq<IndexEntryV>, GitError>(e),
                    }
                }),
            decreases count - i,
        {
            let (entry, at2) = match IndexEntry::read_from_index(data, at) {
                Ok(p) => p,
                Err(e) => {
                    return Err(e);
                },
            };
            proof {
                let ghost ev = index_entry_views(entries@);
                assert(index_entry_views(entries@.push(entry)) =~= ev.push(entry@));
                match spec_parse_entries(data@, at2 as int, (count - i - 1) as nat) {
                    Ok(rest) => {
                        assert(ev + (seq![entry@] + rest) =~= ev.push(entry@) + rest);
                    },
                    Err(_) => {},
                }
            }
            entries.push(entry);
            at = at2;
            i = i + 1;
        }
        proof {
            assert(index_entry_views(entries@) + Seq::<IndexEntryV>::empty() =~= index_entry_views(
                entries@,
            ));
        }
        Ok(IndexFile { signature, version, entries })
    }
}

/// The nibble value of a lowercase hex digit; other bytes count as zero.
pub open spec fn unhex_digit(b: u8) -> u8 {
    if 48 <= b <= 57 {
        (b - 48) as u8
    } else if 97 <= b <= 102 {
        (b - 87) as u8
    } else {
        0
    }
}

/// The raw bytes a lowercase hex string denotes, two digits per byte.
pub open spec fn unhex(s: Seq<u8>) -> Seq<u8>
    decreases s.len(),
{
    if s.len() < 2 {
        Seq::empty()
    } else {
        unhex(s.take(s.len() - 2)).push(
            (unhex_digit(s[s.len() - 2]) * 16 + unhex_digit(s.last())) as u8,
        )
    }
}

/// Decoding a lowercase hex string and rendering the bytes again yields the
/// string back, and the bytes are half as many as the digits.
pub proof fn lemma_hex_unhex(s: Seq<u8>)
    requires
        s.len() % 2 == 0,
        crate::digest::is_hex_lower(s),
    ensures
        hex_of(unhex(s)) == s,
        unhex(s).len() * 2 == s.len(),
    decreases s.len(),
{
    if s.len() >= 2 {
        let s0 = s.take(s.len() - 2);
        assert(crate::digest::is_hex_lower(s0)) by {
            assert(forall|i: int| 0 <= i < s0.len() ==> s0[i] == s[i]);
        }
        lemma_hex_unhex(s0);
        let c1 = s[s.len() - 2];
        let c2 = s.last();
        let v = (unhex_digit(c1) * 16 + unhex_digit(c2)) as u8;
        assert(48 <= c1 <= 57 || 97 <= c1 <= 102);
        assert(48 <= c2 <= 57 || 97 <= c2 <= 102);
        assert(v / 16 == unhex_digit(c1) && v % 16 == unhex_digit(c2)) by (nonlinear_arith)
            requires
                unhex_digit(c1) < 16,
                unhex_digit(c2) < 16,
                v == unhex_digit(c1) * 16 + unhex_digit(c2),
        ;
        assert(crate::digest::hex_digit(unhex_digit(c1)) == c1);
        assert(crate::digest::hex_digit(unhex_digit(c2)) == c2);
        let u = unhex(s);
        assert(u.drop_last() =~= unhex(s0));
        assert(hex_of(u) == hex_of(unhex(s0)).push(crate::digest::hex_digit(v / 16)).push(
            crate::digest::hex_digit(v % 16),
        ));
        assert(hex_of(u) =~= s);
    } else {
        assert(s.len() == 0);
        assert(hex_of(unhex(s)) =~= s);
    }
}

/// A run of NUL bytes.
pub open spec fn zeros(n: int) -> Seq<u8> {
    Seq::new(n as nat, |i: int| 0u8)
}

/// The two big-endian bytes of a flags word.
pub open spec fn flag_bytes(flags: u16) -> Seq<u8> {
    seq![(flags / 256) as u8, (flags % 256) as u8]
}

/// The ten fixed big-endian words of a record.
pub open spec fn enc_words(e: IndexEntryV) -> Seq<u8> {
    be_bytes_of(e.ctime_seconds) + be_bytes_of(e.ctime_nanoseconds) + be_bytes_of(e.mtime_seconds)
        + be_bytes_of(e.mtime_nanoseconds) + be_bytes_of(e.device) + be_bytes_of(e.inode)
        + be_bytes_of(mode_word(e.object_type, e.unix_permission)) + be_bytes_of(e.user_id)
        + be_bytes_of(e.group_id) + be_bytes_of(e.file_size)
}

/// The encoded form of one record: the fixed words, the raw digest, the
/// flags, the NUL-terminated path, and the alignment padding.
#[verifier::opaque]
pub open spec fn spec_encode_entry(e: IndexEntryV) -> Seq<u8> {
    enc_words(e) + unhex(e.hash) + flag_bytes(e.flags) + e.entry_path + seq![0u8] + zeros(
        pad_len(e.entry_path.len() as int + 1),
    )
}

/// The encoded forms of the records, in order.
pub open spec fn spec_encode_entries(es: Seq<IndexEntryV>) -> Seq<u8>
    decreases es.len(),
{
    if es.len() == 0 {
        Seq::empty()
    } else {
        spec_encode_entry(es[0]) + spec_encode_entries(es.drop_first())
    }
}

/// The encoded form of a whole index file.
pub open spec fn spec_encode_index(f: IndexFileV) -> Seq<u8> {
    dirc_signature() + be_bytes_of(f.version) + be_bytes_of(f.entries.len() as u32)
        + spec_encode_entries(f.entries)
}

/// What the writer asks of one entry: a digest in canonical form, a path
/// free of NUL bytes and short enough for the machine, and field values that
/// fit their slots in the mode word.
pub open spec fn entry_wf(e: IndexEntryV) -> bool {
    &&& is_hex40(e.hash)
    &&& !e.entry_path.contains(0u8)
    &&& e.entry_path.len() + 23 <= usize::MAX
    &&& e.object_type < 16
    &&& e.unix_permission < 512
}

/// What the writer asks of a whole file: the canonical signature, a count
/// that fits its slot, and well-formed entries.
pub open spec fn index_wf(f: IndexFileV) -> bool {
    &&& f.signature == dirc_signature()
    &&& f.entries.len() <= u32::MAX
    &&& forall|i: int| 0 <= i < f.entries.len() ==> entry_wf(#[trigger] f.entries[i])
}

/// Rendering bytes as hex digits and decoding them yields the bytes back.
pub proof fn lemma_unhex_hex(b: Seq<u8>)
    ensures
        unhex(hex_of(b)) == b,
    decreases b.len(),
{
    if b.len() > 0 {
        lemma_unhex_hex(b.drop_last());
        crate::digest::lemma_hex_of_shape(b.drop_last());
        let h = hex_of(b);
        let x = b.last();
        assert(h == hex_of(b.drop_last()).push(crate::digest::hex_digit(x / 16)).push(
            crate::digest::hex_digit(x % 16),
        ));
        assert(h.take(h.len() - 2) =~= hex_of(b.drop_last()));
        assert(h[h.len() - 2] == crate::digest::hex_digit(x / 16));
        assert(h.last() == crate::digest::hex_digit(x % 16));
        assert(unhex_digit(crate::digest::hex_digit(x / 16)) == x / 16);
        assert(unhex_digit(crate::digest::hex_digit(x % 16)) == x % 16);
        assert(unhex(h) =~= b);
    } else {
        assert(unhex(hex_of(b)) =~= b);
    }
}

/// Encoding one more entry appends its record.
proof fn lemma_encode_entries_snoc(es: Seq<IndexEntryV>, i: int)
    requires
        0 <= i < es.len(),
    ensures
        spec_encode_entries(es.take(i + 1)) == spec_encode_entries(es.take(i)) + spec_encode_entry(
            es[i],
        ),
    decreases i,
{
    if i == 0 {
        assert(es.take(1)[0] == es[0]);
        assert(es.take(1).drop_first() =~= Seq::<IndexEntryV>::empty());
        assert(spec_encode_entries(es.take(1)) =~= spec_encode_entry(es[0])
            + spec_encode_entries(Seq::empty()));
        assert(spec_encode_entries(es.take(0)) =~= Seq::<u8>::empty());
        assert(spec_encode_entries(es.take(0)) + spec_encode_entry(es[0]) =~= spec_encode_entry(
            es[0],
        ));
    } else {
        lemma_encode_entries_snoc(es.drop_first(), i - 1);
        assert(es.take(i + 1)[0] == es[0]);
        assert(es.take(i + 1).drop_first() =~= es.drop_first().take(i));
        assert(es.take(i)[0] == es[0]);
        assert(es.take(i).drop_first() =~= es.drop_first().take(i - 1));
        assert(es.drop_first()[i - 1] == es[i]);
        assert(spec_encode_entry(es[0]) + (spec_encode_entries(es.drop_first().take(i - 1))
            + spec_encode_entry(es[i])) =~= (spec_encode_entry(es[0]) + spec_encode_entries(
            es.drop_first().take(i - 1),
        )) + spec_encode_entry(es[i]));
    }
}

/// The length of one encoded record: the fixed 62 bytes, the path, its NUL,
/// and the padding.
pub proof fn lemma_encode_entry_len(e: IndexEntryV)
    requires
        entry_wf(e),
    ensures
        spec_encode_entry(e).len() == 63 + e.entry_path.len() + pad_len(
            e.entry_path.len() as int + 1,
        ),
        unhex(e.hash).len() == 20,
{
    reveal(spec_encode_entry);
    lemma_hex_unhex(e.hash);
}

impl IndexEntry {
    /// Encodes this entry as one record, appended to `out`.
    fn write_record(&self, out: &mut Vec<u8>)
        requires
            entry_wf(self@),
        ensures
            final(out)@ == old(out)@ + spec_encode_entry(self@),
    {
        let ghost base = out@;
        push_u32(out, self.ctime_seconds);
        push_u32(out, self.ctime_nanoseconds);
        push_u32(out, self.mtime_seconds);
        push_u32(out, self.mtime_nanoseconds);
        push_u32(out, self.device);
        push_u32(out, self.inode);
        let mode = (self.object_type as u32) * 4096 + (self.unix_permission as u32);
        push_u32(out, mode);
        push_u32(out, self.user_id);
        push_u32(out, self.group_id);
        push_u32(out, self.file_size);
        proof {
            assert(out@ =~= base + enc_words(self@));
        }
        let raw = match hex_decode(&self.hash) {
            Some(v) => v,
            None => {
                proof {
                    assert(false);
                }
                Vec::new()
            },
        };
        proof {
            lemma_unhex_hex(raw@);
        }
        out.extend_from_slice(raw.as_slice());
        out.push((self.flags / 256) as u8);
        out.push((self.flags % 256) as u8);
        out.extend_from_slice(self.entry_path.as_slice());
        out.push(0);
        let ghost mid = out@;
        proof {
            assert(mid =~= base + enc_words(self@) + unhex(self@.hash) + flag_bytes(self@.flags)
                + self@.entry_path + seq![0u8]);
        }
        let rem = (self.entry_path.len() + 23) % 8;
        let pad: usize = if rem == 0 {
            0
        } else {
            8 - rem
        };
        let mut p: usize = 0;
        while p < pad
            invariant
                p <= pad,
                out@ == mid + zeros(p as int),
            decreases pad - p,
        {
            out.push(0);
            proof {
                assert(mid + zeros(p as int) + seq![0u8] =~= mid + zeros(p + 1));
            }
            p = p + 1;
        }
        proof {
            reveal(spec_encode_entry);
            assert(pad == pad_len(self@.entry_path.len() as int + 1));
            assert(out@ =~= base + spec_encode_entry(self@));
        }
    }
}

impl IndexFile {
    /// Encodes the whole file: the signature, the version, the entry count,
    /// and every record in order.
    pub fn write_bytes(&self) -> (r: Vec<u8>)
        requires
            index_wf(self@),
        ensures
            r@ == spec_encode_index(self@),
    {
        let ghost es = self@.entries;
        let mut out: Vec<u8> = Vec::new();
        out.push(68);
        out.push(73);
        out.push(82);
        out.push(67);
        push_u32(&mut out, self.version);
        push_u32(&mut out, self.entries.len() as u32);
        let ghost head = dirc_signature() + be_bytes_of(self@.version) + be_bytes_of(
            es.len() as u32,
        );
        proof {
            assert(out@ =~= head);
            assert(es.take(0) =~= Seq::<IndexEntryV>::empty());
            assert(head + spec_encode_entries(es.take(0)) =~= head);
        }
        let mut i: usize = 0;
        while i < self.entries.len()
            invariant
                i <= self.entries@.len(),
                es == self@.entries,
                index_wf(self@),
                es.len() == self.entries@.len(),
                out@ == head + spec_encode_entries(es.take(i as int)),
            decreases self.entries@.len() - i,
        {
            proof {
                assert(es[i as int] == self.entries@[i as int]@);
                assert(entry_wf(es[i as int]));
            }
            self.entries[i].write_record(&mut out);
            proof {
                lemma_encode_entries_snoc(es, i as int);
                assert((head + spec_encode_entries(es.take(i as int))) + spec_encode_entry(
                    es[i as int],
                ) =~= head + (spec_encode_entries(es.take(i as int)) + spec_encode_entry(
                    es[i as int],
                )));
            }
            i = i + 1;
        }
        proof {
            assert(es.take(es.len() as int) =~= es);
            assert(out@ =~= spec_encode_index(self@));
        }
        out
    }
}

/// A record written at `at` decodes back to the very entry it encodes, and
/// decoding stops exactly at its end.
#[verifier::rlimit(100)]
#[verifier::spinoff_prover]
proof fn lemma_parse_encoded_entry(data: Seq<u8>, at: int, e: IndexEntryV)
    requires
        entry_wf(e),
        0 <= at,
        at + spec_encode_entry(e).len() <= data.len(),
        data.subrange(at, at + spec_encode_entry(e).len()) == spec_encode_entry(e),
    ensures
        spec_parse_index_entry(data, at) == Ok::<(IndexEntryV, int), GitError>(
            (e, at + spec_encode_entry(e).len()),
        ),
{
    reveal(spec_parse_index_entry);
    reveal(spec_encode_entry);
    lemma_encode_entry_len(e);
    lemma_hex_unhex(e.hash);
    let enc = spec_encode_entry(e);
    let w = enc_words(e);
    let plen = e.entry_path.len() as int;
    let pl = pad_len(plen + 1);
    let lrec = 63 + plen + pl;
    assert(enc.len() == lrec);
    assert forall|j: int| 0 <= j < lrec implies data[at + j] == enc[j] by {
        assert(data.subrange(at, at + lrec)[j] == data[at + j]);
    }
    assert(w.len() == 40);
    assert(enc.subrange(0, 40) =~= w);
    assert(enc.subrange(40, 60) =~= unhex(e.hash));
    assert(enc.subrange(60, 62) =~= flag_bytes(e.flags));
    assert(enc.subrange(62, 62 + plen) =~= e.entry_path);
    assert(enc[62 + plen] == 0);
    let z = at + 62 + plen;
    assert forall|j: int| at + 62 <= j < z implies data[j] != 0 by {
        assert(data[j] == enc[j - at]);
        assert(enc[j - at] == enc.subrange(62, 62 + plen)[j - at - 62]);
        if e.entry_path[j - at - 62] == 0 {
            assert(e.entry_path.contains(0u8));
        }
    }
    assert(data[z] == enc[62 + plen]);
    crate::bytes::lemma_find_at(data, at + 62, z, 0);
    assert(data.subrange(at + 62, z) =~= e.entry_path);
    assert(z + 1 - (at + 62) == plen + 1);
    assert(z + 1 + pad_len(plen + 1) == at + lrec);
    assert(data.subrange(at, at + 4) =~= w.subrange(0, 4));
    assert(data.subrange(at + 4, at + 8) =~= w.subrange(4, 8));
    assert(data.subrange(at + 8, at + 12) =~= w.subrange(8, 12));
    assert(data.subrange(at + 12, at + 16) =~= w.subrange(12, 16));
    assert(data.subrange(at + 16, at + 20) =~= w.subrange(16, 20));
    assert(data.subrange(at + 20, at + 24) =~= w.subrange(20, 24));
    assert(data.subrange(at + 24, at + 28) =~= w.subrange(24, 28));
    assert(data.subrange(at + 28, at + 32) =~= w.subrange(28, 32));
    assert(data.subrange(at + 32, at + 36) =~= w.subrange(32, 36));
    assert(data.subrange(at + 36, at + 40) =~= w.subrange(36, 40));
    assert(w.subrange(0, 4) =~= be_bytes_of(e.ctime_seconds));
    assert(w.subrange(4, 8) =~= be_bytes_of(e.ctime_nanoseconds));
    assert(w.subrange(8, 12) =~= be_bytes_of(e.mtime_seconds));
    assert(w.subrange(12, 16) =~= be_bytes_of(e.mtime_nanoseconds));
    assert(w.subrange(16, 20) =~= be_bytes_of(e.device));
    assert(w.subrange(20, 24) =~= be_bytes_of(e.inode));
    assert(w.subrange(24, 28) =~= be_bytes_of(mode_word(e.object_type, e.unix_permission)));
    assert(w.subrange(28, 32) =~= be_bytes_of(e.user_id));
    assert(w.subrange(32, 36) =~= be_bytes_of(e.group_id));
    assert(w.subrange(36, 40) =~= be_bytes_of(e.file_size));
    crate::bytes::lemma_be_round_trip(e.ctime_seconds);
    crate::bytes::lemma_be_round_trip(e.ctime_nanoseconds);
    crate::bytes::lemma_be_round_trip(e.mtime_seconds);
    crate::bytes::lemma_be_round_trip(e.mtime_nanoseconds);
    crate::bytes::lemma_be_round_trip(e.device);
    crate::bytes::lemma_be_round_trip(e.inode);
    crate::bytes::lemma_be_round_trip(mode_word(e.object_type, e.unix_permission));
    crate::bytes::lemma_be_round_trip(e.user_id);
    crate::bytes::lemma_be_round_trip(e.group_id);
    crate::bytes::lemma_be_round_trip(e.file_size);
    let t = e.object_type;
    let p = e.unix_permission;
    assert(type_nibble(mode_word(t, p)) == t && perm_bits(mode_word(t, p)) == p)
        by (nonlinear_arith)
        requires
            t < 16,
            p < 512,
    ;
    assert(data.subrange(at + 40, at + 60) =~= unhex(e.hash));
    assert(hex_of(data.subrange(at + 40, at + 60)) == e.hash);
    assert(data.subrange(at + 60, at + 62) =~= flag_bytes(e.flags));
    assert(be_u16_of(flag_bytes(e.flags)) == e.flags);
    let parsed = spec_parse_index_entry(data, at)->Ok_0;
    assert(parsed.0 == e);
    assert(parsed.1 == at + lrec);
}

/// Records written back to back decode to the very entries they encode.
#[verifier::rlimit(100)]
#[verifier::spinoff_prover]
proof fn lemma_parse_encoded_entries(data: Seq<u8>, at: int, es: Seq<IndexEntryV>)
    requires
        forall|i: int| 0 <= i < es.len() ==> entry_wf(#[trigger] es[i]),
        0 <= at,
        at + spec_encode_entries(es).len() <= data.len(),
        data.subrange(at, at + spec_encode_entries(es).len()) == spec_encode_entries(es),
    ensures
        spec_parse_entries(data, at, es.len()) == Ok::<Seq<IndexEntryV>, GitError>(es),
    decreases es.len(),
{
    if es.len() == 0 {
        assert(spec_parse_entries(data, at, 0) == Ok::<Seq<IndexEntryV>, GitError>(Seq::empty()));
        assert(es =~= Seq::<IndexEntryV>::empty());
    } else {
        let enc = spec_encode_entries(es);
        let enc0 = spec_encode_entry(es[0]);
        let rest = es.drop_first();
        let encr = spec_encode_entries(rest);
        assert(enc =~= enc0 + encr);
        assert forall|j: int| 0 <= j < enc.len() implies data[at + j] == enc[j] by {
            assert(data.subrange(at, at + enc.len())[j] == data[at + j]);
        }
        assert(data.subrange(at, at + enc0.len() as int) =~= enc0);
        lemma_parse_encoded_entry(data, at, es[0]);
        let at2 = at + enc0.len() as int;
        assert forall|j: int| 0 <= j < encr.len() implies data.subrange(
            at2,
            at2 + encr.len() as int,
        )[j] == encr[j] by {
            let jj = (enc0.len() as int) + j;
            assert(data[at + jj] == enc[jj]);
            assert(enc[jj] == encr[j]);
        }
        assert(data.subrange(at2, at2 + encr.len() as int) =~= encr);
        assert(forall|i: int| 0 <= i < rest.len() ==> entry_wf(#[trigger] rest[i]));
        lemma_parse_encoded_entries(data, at2, rest);
        assert(spec_parse_entries(data, at, es.len()) == Ok::<Seq<IndexEntryV>, GitError>(
            seq![es[0]] + rest,
        ));
        assert(seq![es[0]] + rest =~= es);
    }
}

/// Round trip of the index codec: a well-formed index file, written out and
/// read back, yields itself.
pub proof fn lemma_index_round_trip(f: IndexFileV)
    requires
        index_wf(f),
    ensures
        spec_parse_index(spec_encode_index(f)) == Ok::<IndexFileV, GitError>(f),
{
    let enc = spec_encode_index(f);
    let encs = spec_encode_entries(f.entries);
    assert(enc.len() == 12 + encs.len());
    assert(enc.take(4) =~= dirc_signature());
    assert(enc.subrange(4, 8) =~= be_bytes_of(f.version));
    assert(enc.subrange(8, 12) =~= be_bytes_of(f.entries.len() as u32));
    crate::bytes::lemma_be_round_trip(f.version);
    crate::bytes::lemma_be_round_trip(f.entries.len() as u32);
    assert(enc.subrange(12, 12 + encs.len() as int) =~= encs);
    lemma_parse_encoded_entries(enc, 12, f.entries);
    let parsed = spec_parse_index(enc)->Ok_0;
    assert(parsed.signature == f.signature);
    assert(parsed.version == f.version);
    assert(parsed.entries == f.entries);
}

/// Dirtiness stability: an entry built from a file's metadata survives an
/// index write and read unchanged, and a fresh stat of the unchanged file
/// builds an entry the dirtiness predicate calls equal to it.
pub proof fn lemma_dirtiness_stability(
    path: Seq<u8>,
    hash: Seq<u8>,
    flags: u16,
    st: FileStat,
    version: u32,
)
    requires
        is_hex40(hash),
        !path.contains(0u8),
        path.len() + 23 <= usize::MAX,
    ensures
        ({
            let e = spec_from_path(path, hash, flags, st);
            let f = IndexFileV { signature: dirc_signature(), version, entries: seq![e] };
            spec_parse_index(spec_encode_index(f)) == Ok::<IndexFileV, GitError>(f) && dirty_eq(
                spec_from_path(path, hash, flags, st),
                e,
            )
        }),
{
    let e = spec_from_path(path, hash, flags, st);
    let f = IndexFileV { signature: dirc_signature(), version, entries: seq![e] };
    assert(entry_wf(e));
    assert(forall|i: int| 0 <= i < f.entries.len() ==> entry_wf(#[trigger] f.entries[i]));
    lemma_index_round_trip(f);
}

/// One file's live metadata, as a filesystem stat reports it.
#[derive(Clone, Copy, Debug, PartialEq, Eq, Structural)]
pub struct FileStat {
    pub ctime_seconds: u32,
    pub ctime_nanoseconds: u32,
    pub mtime_seconds: u32,
    pub mtime_nanoseconds: u32,
    pub device: u32,
    pub inode: u32,
    pub is_symlink: bool,
    pub raw_mode: u32,
    pub user_id: u32,
    pub group_id: u32,
    pub file_size: u32,
}

/// The entry a stat builds: the type nibble says symlink or regular file,
/// and any permission other than 0755 is coerced to 0644 (a deliberate,
/// lossy normalization the dirtiness predicate depends on).
pub open spec fn spec_from_path(
    path: Seq<u8>,
    hash: Seq<u8>,
    flags: u16,
    st: FileStat,
) -> IndexEntryV {
    IndexEntryV {
        ctime_seconds: st.ctime_seconds,
        ctime_nanoseconds: st.ctime_nanoseconds,
        mtime_seconds: st.mtime_seconds,
        mtime_nanoseconds: st.mtime_nanoseconds,
        device: st.device,
        inode: st.inode,
        object_type: if st.is_symlink {
            10
        } else {
            8
        },
        unix_permission: if st.is_symlink {
            0
        } else if st.raw_mode == 0o755 {
            0o755
        } else {
            0o644
        },
        user_id: st.user_id,
        group_id: st.group_id,
        file_size: st.file_size,
        hash: hash,
        flags: flags,
        entry_path: path,
    }
}

impl IndexEntry {
    /// Builds an entry from a file's live metadata, its content digest, and
    /// the flags word to carry.
    pub fn from_path(path: Vec<u8>, hash: Vec<u8>, flags: u16, st: &FileStat) -> (r: IndexEntry)
        ensures
            r@ == spec_from_path(path@, hash@, flags, *st),
    {
        IndexEntry {
            ctime_seconds: st.ctime_seconds,
            ctime_nanoseconds: st.ctime_nanoseconds,
            mtime_seconds: st.mtime_seconds,
            mtime_nanoseconds: st.mtime_nanoseconds,
            device: st.device,
            inode: st.inode,
            object_type: if st.is_symlink {
                10
            } else {
                8
            },
            unix_permission: if st.is_symlink {
                0
            } else if st.raw_mode == 0o755 {
                0o755
            } else {
                0o644
            },
            user_id: st.user_id,
            group_id: st.group_id,
            file_size: st.file_size,
            hash,
            flags,
            entry_path: path,
        }
    }
}

/// The dirtiness predicate: two entries count as equal (no on-disk change
/// detected) exactly when all the stat-derived fields and the path match.
/// The content digest and the flags word are deliberately excluded.
pub open spec fn dirty_eq(a: IndexEntryV, b: IndexEntryV) -> bool {
    &&& a.mtime_seconds == b.mtime_seconds
    &&& a.mtime_nanoseconds == b.mtime_nanoseconds
    &&& a.ctime_seconds == b.ctime_seconds
    &&& a.ctime_nanoseconds == b.ctime_nanoseconds
    &&& a.device == b.device
    &&& a.inode == b.inode
    &&& a.object_type == b.object_type
    &&& a.unix_permission == b.unix_permission
    &&& a.user_id == b.user_id
    &&& a.group_id == b.group_id
    &&& a.file_size == b.file_size
    &&& a.entry_path == b.entry_path
}

impl PartialEq for IndexEntry {
    /// Equality is the dirtiness predicate of the staging area.
    fn eq(&self, other: &IndexEntry) -> (r: bool) {
        self.mtime_seconds == other.mtime_seconds && self.mtime_nanoseconds
            == other.mtime_nanoseconds && self.ctime_seconds == other.ctime_seconds
            && self.ctime_nanoseconds == other.ctime_nanoseconds && self.device == other.device
            && self.inode == other.inode && self.object_type == other.object_type
            && self.unix_permission == other.unix_permission && self.user_id == other.user_id
            && self.group_id == other.group_id && self.file_size == other.file_size && bytes_eq(
            &self.entry_path,
            &other.entry_path,
        )
    }
}

impl vstd::std_specs::cmp::PartialEqSpecImpl for IndexEntry {
    open spec fn obeys_eq_spec() -> bool {
        true
    }

    open spec fn eq_spec(&self, other: &IndexEntry) -> bool {
        dirty_eq(self@, other@)
    }
}

} // verus!
