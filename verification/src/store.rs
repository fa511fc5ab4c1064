//! The content-addressable object store.
//!
//! Objects are kept as compressed framed bytes under their digest's
//! 40-character hex name. Writing computes the digest of the framed bytes and
//! stores their deflated form; reading resolves a hex prefix to the unique
//! matching name, inflates, and decodes the frame.

use vstd::prelude::*;

use crate::bytes::bytes_eq;
use crate::digest::{hex_encode, hex_of, is_hex40, lemma_hex_of_shape, sha1_digest, sha1_of};
use crate::errors::GitError;
use crate::object::{
    encode_frame, frame_spec, lemma_parse_frame, parse_object, spec_parse_object, Kind, Object,
};
use crate::zlib::{deflate_of, inflate_of, zlib_deflate, zlib_inflate};
use vstd::slice::slice_to_vec;

verus! {

/// Whether `p` is a prefix of `s`.
pub open spec fn is_prefix_of(p: Seq<u8>, s: Seq<u8>) -> bool {
    p.len() <= s.len() && p == s.take(p.len() as int)
}

/// Whether `p@` is a prefix of `s@`.
pub fn prefix_matches(p: &Vec<u8>, s: &Vec<u8>) -> (r: bool)
    ensures
        r == is_prefix_of(p@, s@),
{
    if p.len() > s.len() {
        return false;
    }
    let mut i: usize = 0;
    while i < p.len()
        invariant
            i <= p@.len() <= s@.len(),
            forall|j: int| 0 <= j < i ==> p@[j] == s@[j],
        decreases p@.len() - i,
    {
        if p[i] != s[i] {
            assert(p@[i as int] != s@.take(p@.len() as int)[i as int]);
            return false;
        }
        i = i + 1;
    }
    proof {
        assert(p@ =~= s@.take(p@.len() as int));
    }
    true
}

/// The outcome of matching a prefix against the stored names: no match, a
/// unique match (carrying its compressed bytes), or several.
pub enum Lookup {
    Zero,
    One(Seq<u8>),
    Many,
}

/// Matches `p` against every stored name in turn.
pub open spec fn lookup_rec(v: Seq<(Seq<u8>, Seq<u8>)>, p: Seq<u8>) -> Lookup
    decreases v.len(),
{
    if v.len() == 0 {
        Lookup::Zero
    } else {
        let rest = lookup_rec(v.drop_last(), p);
        if is_prefix_of(p, v.last().0) {
            match rest {
                Lookup::Zero => Lookup::One(v.last().1),
                _ => Lookup::Many,
            }
        } else {
            rest
        }
    }
}

/// What reading a prefix from a store with contents `v` yields: the decoded
/// object of the unique match, or the error that stops it.
pub open spec fn spec_read(v: Seq<(Seq<u8>, Seq<u8>)>, p: Seq<u8>) -> Result<
    (Kind, Seq<u8>),
    GitError,
> {
    match lookup_rec(v, p) {
        Lookup::Zero => Err(GitError::NotFound),
        Lookup::Many => Err(GitError::AmbiguousPrefix),
        Lookup::One(z) => match inflate_of(z) {
            None => Err(GitError::BadCompression),
            Some(f) => spec_parse_object(f),
        },
    }
}

/// The digest under which an object is stored: the hex form of the
/// cryptographic digest of its framed bytes.
pub open spec fn spec_digest(k: Kind, payload: Seq<u8>) -> Seq<u8> {
    hex_of(sha1_of(frame_spec(k, payload)))
}

/// Whether some stored entry bears `name`.
pub open spec fn has_name(v: Seq<(Seq<u8>, Seq<u8>)>, name: Seq<u8>) -> bool {
    exists|i: int| 0 <= i < v.len() && (#[trigger] v[i]).0 == name
}

/// The index of an entry bearing `name`.
pub open spec fn name_index(v: Seq<(Seq<u8>, Seq<u8>)>, name: Seq<u8>) -> int {
    choose|i: int| 0 <= i < v.len() && (#[trigger] v[i]).0 == name
}

/// What storing `(name, z)` does to the contents: replaces the entry of the
/// same name, or appends a new one.
pub open spec fn spec_insert(v: Seq<(Seq<u8>, Seq<u8>)>, name: Seq<u8>, z: Seq<u8>) -> Seq<
    (Seq<u8>, Seq<u8>),
> {
    if has_name(v, name) {
        v.update(name_index(v, name), (name, z))
    } else {
        v.push((name, z))
    }
}

/// No stored name repeats.
pub open spec fn names_unique(v: Seq<(Seq<u8>, Seq<u8>)>) -> bool {
    forall|i: int, j: int| 0 <= i < j < v.len() ==> (#[trigger] v[i]).0 != (#[trigger] v[j]).0
}

/// Every stored name is a 40-character lowercase hex digest, and no name
/// repeats.
pub open spec fn store_wf(v: Seq<(Seq<u8>, Seq<u8>)>) -> bool {
    &&& forall|i: int| 0 <= i < v.len() ==> is_hex40((#[trigger] v[i]).0)
    &&& names_unique(v)
}

/// One stored object: its hex name and its compressed framed bytes.
struct StoredObject {
    name: Vec<u8>,
    zdata: Vec<u8>,
}

/// The object store: a set of compressed framed objects keyed by digest.
pub struct ObjectStore {
    objects: Vec<StoredObject>,
}

impl View for ObjectStore {
    type V = Seq<(Seq<u8>, Seq<u8>)>;

    closed spec fn view(&self) -> Seq<(Seq<u8>, Seq<u8>)> {
        self.objects@.map(|i: int, so: StoredObject| (so.name@, so.zdata@))
    }
}

impl ObjectStore {
    /// The store's invariant over its contents.
    pub open spec fn wf(&self) -> bool {
        store_wf(self@)
    }

    /// An empty store.
    pub fn new() -> (r: ObjectStore)
        ensures
            r@ == Seq::<(Seq<u8>, Seq<u8>)>::empty(),
            r.wf(),
    {
        let r = ObjectStore { objects: Vec::new() };
        proof {
            assert(r@ =~= Seq::<(Seq<u8>, Seq<u8>)>::empty());
        }
        r
    }

    /// How many objects the store holds.
    pub fn count(&self) -> (r: usize)
        ensures
            r == self@.len(),
    {
        self.objects.len()
    }

    /// Adds an already-compressed object under the given name, as when
    /// loading the store from persisted files. Returns `false`, leaving the
    /// store unchanged, when the name is not a 40-character lowercase hex
    /// digest or is already present.
    pub fn insert_raw(&mut self, name: Vec<u8>, zdata: Vec<u8>) -> (r: bool)
        requires
            old(self).wf(),
        ensures
            final(self).wf(),
            r == (is_hex40(name@) && !has_name(old(self)@, name@)),
            r ==> final(self)@ == old(self)@.push((name@, zdata@)),
            !r ==> final(self)@ == old(self)@,
    {
        if !is_hex40_exec(&name) {
            return false;
        }
        match self.find_name(&name) {
            Some(_) => false,
            None => {
                let ghost v0 = self@;
                self.objects.push(StoredObject { name, zdata });
                proof {
                    assert(self@ =~= v0.push((name@, zdata@)));
                }
                true
            },
        }
    }

    /// The index of the entry bearing `name`, if one does.
    fn find_name(&self, name: &Vec<u8>) -> (r: Option<usize>)
        ensures
            match r {
                Some(i) => i < self@.len() && self@[i as int].0 == name@,
                None => !has_name(self@, name@),
            },
    {
        let mut i: usize = 0;
        while i < self.objects.len()
            invariant
                i <= self@.len(),
                self@.len() == self.objects@.len(),
                forall|j: int| 0 <= j < i ==> (#[trigger] self@[j]).0 != name@,
            decreases self@.len() - i,
        {
            if bytes_eq(&self.objects[i].name, name) {
                assert(self@[i as int].0 == name@);
                return Some(i);
            }
            assert(self@[i as int].0 != name@);
            i = i + 1;
        }
        None
    }

    /// Stores `(name, z)`, replacing an entry of the same name if present.
    fn put(&mut self, name: Vec<u8>, zdata: Vec<u8>)
        requires
            old(self).wf(),
            is_hex40(name@),
        ensures
            final(self).wf(),
            final(self)@ == spec_insert(old(self)@, name@, zdata@),
    {
        let ghost v0 = self@;
        match self.find_name(&name) {
            Some(i) => {
                proof {
                    assert(has_name(v0, name@));
                    let j = name_index(v0, name@);
                    assert(v0[j].0 == name@);
                    assert(j == i);
                }
                self.objects[i] = StoredObject { name, zdata };
                proof {
                    assert(self@ =~= v0.update(i as int, (name@, zdata@)));
                }
            },
            None => {
                self.objects.push(StoredObject { name, zdata });
                proof {
                    assert(!has_name(v0, name@));
                    assert(self@ =~= v0.push((name@, zdata@)));
                }
            },
        }
    }

    /// Resolves a hex prefix of at least two characters to the unique stored
    /// object bearing it, inflates that object's bytes and decodes the frame.
    /// No match is `NotFound`; several are `AmbiguousPrefix`.
    pub fn read(&self, prefix: &Vec<u8>) -> (r: Result<Object, GitError>)
        requires
            prefix@.len() >= 2,
        ensures
            match r {
                Ok(o) => spec_read(self@, prefix@) == Ok::<(Kind, Seq<u8>), GitError>(
                    (o.kind, o.payload@),
                ) && o.len == o.payload@.len(),
                Err(e) => spec_read(self@, prefix@) == Err::<(Kind, Seq<u8>), GitError>(e),
            },
    {
        let ghost v = self@;
        let mut found: Option<usize> = None;
        let mut many: bool = false;
        let mut i: usize = 0;
        while i < self.objects.len()
            invariant
                i <= v.len(),
                v == self@,
                v.len() == self.objects@.len(),
                many ==> lookup_rec(v.take(i as int), prefix@) is Many,
                !many && found is None ==> lookup_rec(v.take(i as int), prefix@) is Zero,
                !many && found is Some ==> {
                    let ix = found->Some_0;
                    ix < i && lookup_rec(v.take(i as int), prefix@) == Lookup::One(v[ix as int].1)
                },
            decreases v.len() - i,
        {
            proof {
                assert(v.take(i + 1).drop_last() =~= v.take(i as int));
                assert(v.take(i + 1).last() == v[i as int]);
            }
            if prefix_matches(prefix, &self.objects[i].name) {
                if found.is_some() || many {
                    many = true;
                } else {
                    found = Some(i);
                }
            }
            i = i + 1;
        }
        proof {
            assert(v.take(v.len() as int) =~= v);
        }
        if many {
            return Err(GitError::AmbiguousPrefix);
        }
        let ix = match found {
            Some(ix) => ix,
            None => {
                return Err(GitError::NotFound);
            },
        };
        let frame = match zlib_inflate(&self.objects[ix].zdata) {
            Ok(f) => f,
            Err(e) => {
                return Err(e);
            },
        };
        parse_object(&frame)
    }
}

/// Whether `name@` is a 40-character lowercase hex digest.
fn is_hex40_exec(name: &Vec<u8>) -> (r: bool)
    ensures
        r == is_hex40(name@),
{
    if name.len() != 40 {
        return false;
    }
    let mut i: usize = 0;
    while i < name.len()
        invariant
            i <= name@.len(),
            name@.len() == 40,
            forall|j: int| 0 <= j < i ==> (48 <= #[trigger] name@[j] <= 57 || 97 <= name@[j]
                <= 102),
        decreases name@.len() - i,
    {
        let b = name[i];
        if !(48 <= b && b <= 57 || 97 <= b && b <= 102) {
            assert(name@[i as int] == b);
            return false;
        }
        i = i + 1;
    }
    true
}

/// When nothing matches the prefix, the lookup finds nothing.
proof fn lemma_no_match_zero(v: Seq<(Seq<u8>, Seq<u8>)>, p: Seq<u8>)
    requires
        forall|i: int| 0 <= i < v.len() ==> !is_prefix_of(p, (#[trigger] v[i]).0),
    ensures
        lookup_rec(v, p) is Zero,
    decreases v.len(),
{
    if v.len() > 0 {
        lemma_no_match_zero(v.drop_last(), p);
        assert(!is_prefix_of(p, v.last().0));
    }
}

/// When exactly one entry matches the prefix, the lookup finds its bytes.
proof fn lemma_unique_match_one(v: Seq<(Seq<u8>, Seq<u8>)>, p: Seq<u8>, i: int)
    requires
        0 <= i < v.len(),
        is_prefix_of(p, v[i].0),
        forall|j: int| 0 <= j < v.len() && j != i ==> !is_prefix_of(p, (#[trigger] v[j]).0),
    ensures
        lookup_rec(v, p) == Lookup::One(v[i].1),
    decreases v.len(),
{
    if i == v.len() - 1 {
        assert(forall|j: int|
            0 <= j < v.drop_last().len() ==> !is_prefix_of(p, (#[trigger] v.drop_last()[j]).0));
        lemma_no_match_zero(v.drop_last(), p);
    } else {
        assert(!is_prefix_of(p, v.last().0));
        lemma_unique_match_one(v.drop_last(), p, i);
        assert(v.drop_last()[i] == v[i]);
    }
}

/// A matching entry keeps the lookup from coming back empty.
proof fn lemma_match_not_zero(v: Seq<(Seq<u8>, Seq<u8>)>, p: Seq<u8>, i: int)
    requires
        0 <= i < v.len(),
        is_prefix_of(p, v[i].0),
    ensures
        !(lookup_rec(v, p) is Zero),
    decreases v.len(),
{
    if i < v.len() - 1 {
        lemma_match_not_zero(v.drop_last(), p, i);
    }
}

/// Two entries matching the same prefix make the lookup ambiguous.
proof fn lemma_two_matches_many(v: Seq<(Seq<u8>, Seq<u8>)>, p: Seq<u8>, i: int, j: int)
    requires
        0 <= i < j < v.len(),
        is_prefix_of(p, v[i].0),
        is_prefix_of(p, v[j].0),
    ensures
        lookup_rec(v, p) is Many,
    decreases v.len(),
{
    if j == v.len() - 1 {
        lemma_match_not_zero(v.drop_last(), p, i);
    } else {
        lemma_two_matches_many(v.drop_last(), p, i, j);
    }
}

/// Reading a prefix that two stored digests share fails with
/// `AmbiguousPrefix`, whatever else the store holds.
pub proof fn lemma_shared_prefix_ambiguous(v: Seq<(Seq<u8>, Seq<u8>)>, p: Seq<u8>, i: int, j: int)
    requires
        0 <= i < j < v.len(),
        is_prefix_of(p, v[i].0),
        is_prefix_of(p, v[j].0),
    ensures
        spec_read(v, p) == Err::<(Kind, Seq<u8>), GitError>(GitError::AmbiguousPrefix),
{
    lemma_two_matches_many(v, p, i, j);
}

/// On a well-formed store, a stored 40-character name matches itself alone,
/// so looking it up finds exactly its bytes.
proof fn lemma_full_name_lookup(v: Seq<(Seq<u8>, Seq<u8>)>, i: int)
    requires
        store_wf(v),
        0 <= i < v.len(),
    ensures
        lookup_rec(v, v[i].0) == Lookup::One(v[i].1),
{
    let p = v[i].0;
    assert(is_prefix_of(p, p)) by {
        assert(p.take(p.len() as int) =~= p);
    }
    assert forall|j: int| 0 <= j < v.len() && j != i implies !is_prefix_of(
        p,
        (#[trigger] v[j]).0,
    ) by {
        if is_prefix_of(p, v[j].0) {
            assert(v[j].0.take(p.len() as int) =~= v[j].0);
            assert(v[j].0 == p);
        }
    }
    lemma_unique_match_one(v, p, i);
}

/// Storing under a fresh or existing digest keeps the store well formed.
pub proof fn lemma_insert_wf(v: Seq<(Seq<u8>, Seq<u8>)>, name: Seq<u8>, z: Seq<u8>)
    requires
        store_wf(v),
        is_hex40(name),
    ensures
        store_wf(spec_insert(v, name, z)),
{
    if has_name(v, name) {
        let ni = name_index(v, name);
        assert(0 <= ni < v.len() && v[ni].0 == name);
        let v2 = v.update(ni, (name, z));
        assert forall|a: int, b: int| 0 <= a < b < v2.len() implies (#[trigger] v2[a]).0 != (
        #[trigger] v2[b]).0 by {
            assert(v2[a].0 == v[a].0 && v2[b].0 == v[b].0);
        }
    }
}

/// Round trip: after a blob's payload is written, reading the digest the
/// write returned yields a blob with that very payload. The premises of the
/// implication are what the hashing and compression calls establish of every
/// frame they touch.
pub proof fn lemma_round_trip(v: Seq<(Seq<u8>, Seq<u8>)>, b: Seq<u8>)
    requires
        store_wf(v),
        b.len() <= u64::MAX,
    ensures
        ({
            let f = frame_spec(Kind::Blob, b);
            let d = spec_digest(Kind::Blob, b);
            let v2 = spec_insert(v, d, deflate_of(f));
            (sha1_of(f).len() == 20 && inflate_of(deflate_of(f)) == Some(f)) ==> store_wf(v2)
                && spec_read(v2, d) == Ok::<(Kind, Seq<u8>), GitError>((Kind::Blob, b))
        }),
{
    let f = frame_spec(Kind::Blob, b);
    let d = spec_digest(Kind::Blob, b);
    let z = deflate_of(f);
    let v2 = spec_insert(v, d, z);
    if sha1_of(f).len() == 20 && inflate_of(z) == Some(f) {
        lemma_hex_of_shape(sha1_of(f));
        assert(is_hex40(d));
        lemma_insert_wf(v, d, z);
        let di: int = if has_name(v, d) {
            name_index(v, d)
        } else {
            v.len() as int
        };
        assert(0 <= di < v2.len() && v2[di].0 == d && v2[di].1 == z);
        lemma_full_name_lookup(v2, di);
        lemma_parse_frame(Kind::Blob, b);
    }
}

/// Determinism and idempotence: writing the same kind and payload twice
/// computes the same digest both times (it is a function of kind and payload
/// alone), and the second write leaves the store exactly as the first did.
pub proof fn lemma_write_idempotent(v: Seq<(Seq<u8>, Seq<u8>)>, k: Kind, payload: Seq<u8>)
    requires
        names_unique(v),
    ensures
        ({
            let d = spec_digest(k, payload);
            let z = deflate_of(frame_spec(k, payload));
            spec_insert(spec_insert(v, d, z), d, z) == spec_insert(v, d, z)
        }),
{
    let d = spec_digest(k, payload);
    let z = deflate_of(frame_spec(k, payload));
    let v2 = spec_insert(v, d, z);
    let di: int = if has_name(v, d) {
        name_index(v, d)
    } else {
        v.len() as int
    };
    assert(0 <= di < v2.len() && v2[di].0 == d && v2[di].1 == z);
    assert(has_name(v2, d));
    assert forall|a: int, b: int| 0 <= a < b < v2.len() implies (#[trigger] v2[a]).0 != (
    #[trigger] v2[b]).0 by {
        if has_name(v, d) {
            assert(v2[a].0 == v[a].0 && v2[b].0 == v[b].0);
        } else {
            if b < v.len() {
                assert(v2[a].0 == v[a].0 && v2[b].0 == v[b].0);
            } else {
                assert(v2[b].0 == d);
                assert(v2[a].0 == v[a].0);
                assert(!(v[a].0 == d)) by {
                    if v[a].0 == d {
                        assert(has_name(v, d));
                    }
                }
            }
        }
    }
    let ni2 = name_index(v2, d);
    assert(0 <= ni2 < v2.len() && v2[ni2].0 == d);
    assert(ni2 == di) by {
        if ni2 != di {
            assert(v2[ni2].0 != v2[di].0);
        }
    }
    assert(v2.update(ni2, (d, z)) =~= v2);
}

impl Object {
    /// The digest under which this object would be stored.
    pub fn hash(&self) -> (r: Vec<u8>)
        ensures
            r@ == spec_digest(self.kind, self.payload@),
            is_hex40(r@),
    {
        let frame = encode_frame(self.kind, &self.payload);
        let raw = sha1_digest(&frame);
        proof {
            lemma_hex_of_shape(raw@);
        }
        hex_encode(raw.as_slice())
    }

    /// Frames this object, computes its digest, and stores the deflated
    /// frame under it, replacing byte-identical content when the digest is
    /// already present. Returns the digest and the compressed bytes, which a
    /// caller persists at the digest-derived path.
    pub fn write(&self, store: &mut ObjectStore) -> (r: (Vec<u8>, Vec<u8>))
        requires
            old(store).wf(),
            self.wf(),
        ensures
            final(store).wf(),
            r.0@ == spec_digest(self.kind, self.payload@),
            is_hex40(r.0@),
            r.1@ == deflate_of(frame_spec(self.kind, self.payload@)),
            inflate_of(r.1@) == Some(frame_spec(self.kind, self.payload@)),
            final(store)@ == spec_insert(
                old(store)@,
                spec_digest(self.kind, self.payload@),
                deflate_of(frame_spec(self.kind, self.payload@)),
            ),
    {
        let frame = encode_frame(self.kind, &self.payload);
        let raw = sha1_digest(&frame);
        proof {
            lemma_hex_of_shape(raw@);
        }
        let digest = hex_encode(raw.as_slice());
        let z = zlib_deflate(&frame);
        let digest_out = slice_to_vec(digest.as_slice());
        let z_out = slice_to_vec(z.as_slice());
        store.put(digest, z);
        (digest_out, z_out)
    }
}

} // verus!
