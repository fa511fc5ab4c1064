//! Digests and their textual form: the 160-bit content digest, and lowercase
//! hexadecimal encoding and decoding of raw bytes.

use vstd::prelude::*;

use sha1::Digest;

verus! {

/// The 20-byte cryptographic digest of a byte sequence, as the store's
/// hash function computes it.
pub uninterp spec fn sha1_of(data: Seq<u8>) -> Seq<u8>;

/// Relies on `sha1::Sha1` through the `Digest` trait: the digest is 20 bytes
/// and a function of the input bytes alone.
#[verifier::external_body]
pub(crate) fn sha1_digest(data: &Vec<u8>) -> (r: Vec<u8>)
    ensures
        r@ == sha1_of(data@),
        r@.len() == 20,
{
    let mut hasher = sha1::Sha1::new();
    hasher.update(data.as_slice());
    hasher.finalize().to_vec()
}

/// The lowercase hex digit for a value below 16.
pub open spec fn hex_digit(n: u8) -> u8 {
    if n < 10 {
        (48 + n) as u8
    } else {
        (87 + n) as u8
    }
}

/// The lowercase hex rendering of a byte sequence: two digits per byte,
/// high nibble first.
pub open spec fn hex_of(bytes: Seq<u8>) -> Seq<u8>
    decreases bytes.len(),
{
    if bytes.len() == 0 {
        Seq::empty()
    } else {
        hex_of(bytes.drop_last()).push(hex_digit(bytes.last() / 16)).push(
            hex_digit(bytes.last() % 16),
        )
    }
}

/// Whether every byte of `s` is a lowercase hex digit.
pub open spec fn is_hex_lower(s: Seq<u8>) -> bool {
    forall|i: int|
        0 <= i < s.len() ==> (48 <= #[trigger] s[i] <= 57 || 97 <= s[i] <= 102)
}

/// The canonical textual form of a digest: 40 lowercase hex digits.
pub open spec fn is_hex40(s: Seq<u8>) -> bool {
    s.len() == 40 && is_hex_lower(s)
}

/// Hex rendering doubles the length and yields lowercase digits only.
pub proof fn lemma_hex_of_shape(bytes: Seq<u8>)
    ensures
        hex_of(bytes).len() == 2 * bytes.len(),
        is_hex_lower(hex_of(bytes)),
    decreases bytes.len(),
{
    if bytes.len() > 0 {
        lemma_hex_of_shape(bytes.drop_last());
    }
}

/// Relies on `hex::encode`: two lowercase hex digits per byte, high nibble
/// first.
#[verifier::external_body]
pub(crate) fn hex_encode(bytes: &[u8]) -> (r: Vec<u8>)
    ensures
        r@ == hex_of(bytes@),
{
    hex::encode(bytes).into_bytes()
}

/// The nibble value of one lowercase hex digit, if it is one.
fn nibble_of(b: u8) -> (r: Option<u8>)
    ensures
        match r {
            Some(v) => v < 16 && hex_digit(v) == b,
            None => !(48 <= b <= 57 || 97 <= b <= 102),
        },
{
    if 48 <= b && b <= 57 {
        Some(b - 48)
    } else if 97 <= b && b <= 102 {
        Some(b - 87)
    } else {
        None
    }
}

/// Decodes a lowercase hex string back into raw bytes. Returns `None` when
/// the length is odd or a byte is not a lowercase hex digit.
pub fn hex_decode(s: &Vec<u8>) -> (r: Option<Vec<u8>>)
    ensures
        match r {
            Some(v) => hex_of(v@) == s@ && v@.len() * 2 == s@.len(),
            None => s@.len() % 2 != 0 || !is_hex_lower(s@),
        },
{
    if s.len() % 2 != 0 {
        return None;
    }
    let mut out: Vec<u8> = Vec::new();
    let mut i: usize = 0;
    while i < s.len()
        invariant
            i <= s@.len(),
            i % 2 == 0,
            s@.len() % 2 == 0,
            out@.len() * 2 == i,
            hex_of(out@) =~= s@.take(i as int),
        decreases s@.len() - i,
    {
        assert(i + 2 <= s@.len());
        let bh = s[i];
        let bl = s[i + 1];
        let hi = match nibble_of(bh) {
            Some(v) => v,
            None => {
                assert(s@[i as int] == bh);
                assert(!is_hex_lower(s@));
                return None;
            },
        };
        let lo = match nibble_of(bl) {
            Some(v) => v,
            None => {
                assert(s@[i + 1] == bl);
                assert(!is_hex_lower(s@));
                return None;
            },
        };
        let b = hi * 16 + lo;
        proof {
            assert(b / 16 == hi && b % 16 == lo) by (nonlinear_arith)
                requires
                    hi < 16,
                    lo < 16,
                    b == hi * 16 + lo,
            ;
            assert(out@.push(b).drop_last() =~= out@);
            assert(hex_of(out@.push(b)) =~= s@.take(i + 2));
        }
        out.push(b);
        i = i + 2;
    }
    proof {
        assert(s@.take(s@.len() as int) =~= s@);
    }
    Some(out)
}

} // verus!
