//! Byte-level helpers shared by the codecs: big-endian 32-bit words,
//! decimal rendering and parsing, and searching for a delimiter byte.

use vstd::prelude::*;

verus! {

/// The value of a 4-byte big-endian word.
pub open spec fn be_u32_of(b: Seq<u8>) -> u32
    recommends
        b.len() == 4,
{
    ((b[0] as u32) * 0x1000000 + (b[1] as u32) * 0x10000 + (b[2] as u32) * 0x100 + (
    b[3] as u32)) as u32
}

/// The value of a 2-byte big-endian word.
pub open spec fn be_u16_of(b: Seq<u8>) -> u16
    recommends
        b.len() == 2,
{
    ((b[0] as u16) * 0x100 + (b[1] as u16)) as u16
}

/// The 4-byte big-endian form of a 32-bit word.
pub open spec fn be_bytes_of(n: u32) -> Seq<u8> {
    seq![
        (n / 0x1000000) as u8,
        ((n / 0x10000) % 0x100) as u8,
        ((n / 0x100) % 0x100) as u8,
        (n % 0x100) as u8,
    ]
}

/// Reading back the 4 bytes of a word yields the word.
pub proof fn lemma_be_round_trip(n: u32)
    ensures
        be_u32_of(be_bytes_of(n)) == n,
{
    assert(be_u32_of(be_bytes_of(n)) == n) by (bit_vector);
}

/// Reads the big-endian 32-bit word at `at`.
pub fn read_u32(data: &Vec<u8>, at: usize) -> (r: u32)
    requires
        at + 4 <= data@.len(),
    ensures
        r == be_u32_of(data@.subrange(at as int, at + 4)),
{
    let l = data.len();
    assert(at + 4 <= l);
    let b0 = data[at];
    let b1 = data[at + 1];
    let b2 = data[at + 2];
    let b3 = data[at + 3];
    let r = (b0 as u32) * 0x1000000 + (b1 as u32) * 0x10000 + (b2 as u32) * 0x100 + (b3 as u32);
    proof {
        let s = data@.subrange(at as int, at + 4);
        assert(s[0] == b0 && s[1] == b1 && s[2] == b2 && s[3] == b3);
    }
    r
}

/// Appends the big-endian bytes of `n` to `out`.
pub fn push_u32(out: &mut Vec<u8>, n: u32)
    ensures
        final(out)@ == old(out)@ + be_bytes_of(n),
{
    out.push((n / 0x1000000) as u8);
    out.push(((n / 0x10000) % 0x100) as u8);
    out.push(((n / 0x100) % 0x100) as u8);
    out.push((n % 0x100) as u8);
    proof {
        assert(final(out)@ =~= old(out)@ + be_bytes_of(n));
    }
}

/// The ASCII decimal digits of `n`, most significant first, no sign and no
/// leading zero (`0` itself is rendered as one digit).
pub open spec fn dec_digits(n: nat) -> Seq<u8>
    decreases n,
{
    if n < 10 {
        seq![(48 + n) as u8]
    } else {
        dec_digits(n / 10).push((48 + n % 10) as u8)
    }
}

/// Whether every byte of `s` is an ASCII decimal digit and `s` is nonempty.
pub open spec fn is_dec_digits(s: Seq<u8>) -> bool {
    s.len() > 0 && forall|i: int| 0 <= i < s.len() ==> 48 <= #[trigger] s[i] <= 57
}

/// The value of one ASCII digit; bytes outside the digit range count as zero.
pub open spec fn digit_val(b: u8) -> nat {
    if 48 <= b <= 57 {
        (b - 48) as nat
    } else {
        0
    }
}

/// The numeric value of a digit string, most significant first.
pub open spec fn dec_val(s: Seq<u8>) -> nat
    decreases s.len(),
{
    if s.len() == 0 {
        0
    } else {
        dec_val(s.drop_last()) * 10 + digit_val(s.last())
    }
}

/// Rendering a number gives digits, and parsing them gives the number back.
pub proof fn lemma_dec_round_trip(n: nat)
    ensures
        is_dec_digits(dec_digits(n)),
        dec_val(dec_digits(n)) == n,
    decreases n,
{
    if n < 10 {
        let s = dec_digits(n);
        assert(s.drop_last() =~= Seq::<u8>::empty());
        assert(s.last() == (48 + n) as u8);
        assert(digit_val(s.last()) == n);
        assert(dec_val(s.drop_last()) == 0);
        assert(dec_val(s) == dec_val(s.drop_last()) * 10 + digit_val(s.last()));
    } else {
        lemma_dec_round_trip(n / 10);
        let s = dec_digits(n);
        assert(s.drop_last() =~= dec_digits(n / 10));
        assert(s.last() == (48 + n % 10) as u8);
        assert(digit_val(s.last()) == n % 10);
        assert(dec_val(s) == (n / 10) * 10 + n % 10);
    }
}

/// Renders `n` as ASCII decimal digits.
pub fn u64_to_decimal(n: u64) -> (r: Vec<u8>)
    ensures
        r@ == dec_digits(n as nat),
    decreases n,
{
    if n < 10 {
        let mut out: Vec<u8> = Vec::new();
        out.push(48 + n as u8);
        proof {
            assert(out@ =~= dec_digits(n as nat));
        }
        out
    } else {
        let mut out = u64_to_decimal(n / 10);
        out.push(48 + (n % 10) as u8);
        out
    }
}

/// Extending a digit string never shrinks its value.
proof fn lemma_dec_val_extend(s: Seq<u8>, k: int)
    requires
        0 <= k <= s.len(),
    ensures
        dec_val(s) >= dec_val(s.take(k)),
    decreases s.len() - k,
{
    if k < s.len() {
        lemma_dec_val_extend(s, k + 1);
        assert(s.take(k + 1).drop_last() =~= s.take(k));
        assert(dec_val(s.take(k + 1)) == dec_val(s.take(k)) * 10 + digit_val(s.take(k + 1).last()));
        assert(dec_val(s.take(k)) * 10 >= dec_val(s.take(k))) by (nonlinear_arith);
    } else {
        assert(s.take(k) =~= s);
    }
}

/// Parses the bytes of `data` in `[from, to)` as an unsigned decimal number.
/// Returns `None` when the range is empty, holds a non-digit, or the value
/// does not fit in 64 bits.
pub fn parse_decimal(data: &Vec<u8>, from: usize, to: usize) -> (r: Option<u64>)
    requires
        from <= to <= data@.len(),
    ensures
        ({
            let s = data@.subrange(from as int, to as int);
            match r {
                Some(v) => is_dec_digits(s) && dec_val(s) == v,
                None => !is_dec_digits(s) || dec_val(s) > u64::MAX,
            }
        }),
{
    let ghost s = data@.subrange(from as int, to as int);
    if from == to {
        return None;
    }
    let mut acc: u64 = 0;
    let mut i: usize = from;
    while i < to
        invariant
            from <= i <= to <= data@.len(),
            s == data@.subrange(from as int, to as int),
            from < to,
            forall|j: int| 0 <= j < i - from ==> 48 <= #[trigger] s[j] <= 57,
            acc == dec_val(s.take(i - from)),
        decreases to - i,
    {
        let b = data[i];
        if b < 48 || b > 57 {
            assert(s[i - from] == b);
            assert(!is_dec_digits(s));
            return None;
        }
        let d = b - 48;
        if acc > (u64::MAX - d as u64) / 10 {
            proof {
                assert(s.take(i - from + 1).drop_last() =~= s.take(i - from));
                assert(s.take(i - from + 1).last() == b);
                assert(digit_val(b) == d);
                assert(dec_val(s.take(i - from + 1)) == acc * 10 + d);
                assert(acc * 10 + d > u64::MAX) by (nonlinear_arith)
                    requires
                        acc > (u64::MAX - d as u64) / 10,
                        d < 10,
                ;
                lemma_dec_val_extend(s, i - from + 1);
                assert(s.take(s.len() as int) =~= s);
            }
            return None;
        }
        proof {
            assert(acc * 10 + d <= u64::MAX) by (nonlinear_arith)
                requires
                    acc <= (u64::MAX - d as u64) / 10,
                    d < 10,
            ;
            assert(s.take(i - from + 1).drop_last() =~= s.take(i - from));
            assert(s.take(i - from + 1).last() == b);
            assert(digit_val(b) == d);
        }
        acc = acc * 10 + d as u64;
        i = i + 1;
    }
    proof {
        assert(s.take(s.len() as int) =~= s);
    }
    Some(acc)
}

/// Whether `b` is an ASCII whitespace byte.
pub open spec fn is_ws(b: u8) -> bool {
    b == 32 || b == 9 || b == 10 || b == 13 || b == 11 || b == 12
}

/// Whether `b` is an ASCII whitespace byte.
pub fn is_ws_exec(b: u8) -> (r: bool)
    ensures
        r == is_ws(b),
{
    b == 32 || b == 9 || b == 10 || b == 13 || b == 11 || b == 12
}

/// `s` with its trailing whitespace removed.
pub open spec fn trim_end_spec(s: Seq<u8>) -> Seq<u8>
    decreases s.len(),
{
    if s.len() > 0 && is_ws(s.last()) {
        trim_end_spec(s.drop_last())
    } else {
        s
    }
}

/// `s` with its leading whitespace removed.
pub open spec fn trim_start_spec(s: Seq<u8>) -> Seq<u8>
    decreases s.len(),
{
    if s.len() > 0 && is_ws(s[0]) {
        trim_start_spec(s.drop_first())
    } else {
        s
    }
}

/// `s` with whitespace removed from both ends.
pub open spec fn trim_spec(s: Seq<u8>) -> Seq<u8> {
    trim_start_spec(trim_end_spec(s))
}

/// Copies `data[from..to]` with trailing whitespace removed.
pub fn trim_end_range(data: &Vec<u8>, from: usize, to: usize) -> (r: Vec<u8>)
    requires
        from <= to <= data@.len(),
    ensures
        r@ == trim_end_spec(data@.subrange(from as int, to as int)),
{
    let ghost sub = data@.subrange(from as int, to as int);
    let mut j: usize = to;
    while j > from && is_ws_exec(data[j - 1])
        invariant
            from <= j <= to <= data@.len(),
            sub == data@.subrange(from as int, to as int),
            trim_end_spec(sub) == trim_end_spec(data@.subrange(from as int, j as int)),
        decreases j,
    {
        proof {
            let cur = data@.subrange(from as int, j as int);
            assert(cur.last() == data@[j - 1]);
            assert(cur.drop_last() =~= data@.subrange(from as int, j - 1));
        }
        j = j - 1;
    }
    proof {
        let cur = data@.subrange(from as int, j as int);
        if j > from {
            assert(cur.last() == data@[j - 1]);
        }
        assert(trim_end_spec(cur) == cur);
    }
    let r = vstd::slice::slice_to_vec(vstd::slice::slice_subrange(data.as_slice(), from, j));
    proof {
        assert(r@ =~= data@.subrange(from as int, j as int));
    }
    r
}

/// Copies `data[from..to]` with whitespace removed from both ends.
pub fn trim_range(data: &Vec<u8>, from: usize, to: usize) -> (r: Vec<u8>)
    requires
        from <= to <= data@.len(),
    ensures
        r@ == trim_spec(data@.subrange(from as int, to as int)),
{
    let t = trim_end_range(data, from, to);
    proof {
        assert(t@.skip(0) =~= t@);
    }
    let mut i: usize = 0;
    while i < t.len() && is_ws_exec(t[i])
        invariant
            i <= t@.len(),
            trim_start_spec(t@) == trim_start_spec(t@.skip(i as int)),
        decreases t@.len() - i,
    {
        proof {
            let cur = t@.skip(i as int);
            assert(cur[0] == t@[i as int]);
            assert(cur.drop_first() =~= t@.skip(i + 1));
        }
        i = i + 1;
    }
    proof {
        let cur = t@.skip(i as int);
        if i < t@.len() {
            assert(cur[0] == t@[i as int]);
        }
        assert(trim_start_spec(cur) == cur);
    }
    let r = vstd::slice::slice_to_vec(vstd::slice::slice_subrange(t.as_slice(), i, t.len()));
    proof {
        assert(r@ =~= t@.skip(i as int));
    }
    r
}

/// Whether two byte vectors hold the same bytes.
pub fn bytes_eq(a: &Vec<u8>, b: &Vec<u8>) -> (r: bool)
    ensures
        r == (a@ == b@),
{
    if a.len() != b.len() {
        assert(a@.len() != b@.len());
        return false;
    }
    let mut i: usize = 0;
    while i < a.len()
        invariant
            i <= a@.len(),
            a@.len() == b@.len(),
            forall|j: int| 0 <= j < i ==> a@[j] == b@[j],
        decreases a@.len() - i,
    {
        if a[i] != b[i] {
            return false;
        }
        i = i + 1;
    }
    proof {
        assert(a@ =~= b@);
    }
    true
}

/// A copy of the bytes.
pub fn copy_bytes(v: &Vec<u8>) -> (r: Vec<u8>)
    ensures
        r@ == v@,
{
    vstd::slice::slice_to_vec(v.as_slice())
}

/// Whether some element of `acc` holds the bytes of `x`.
pub fn contains_bytes(acc: &Vec<Vec<u8>>, x: &Vec<u8>) -> (r: bool)
    ensures
        r == acc.deep_view().contains(x@),
{
    let mut i: usize = 0;
    while i < acc.len()
        invariant
            i <= acc@.len(),
            acc.deep_view().len() == acc@.len(),
            forall|j: int| 0 <= j < i ==> acc.deep_view()[j] != x@,
        decreases acc@.len() - i,
    {
        if bytes_eq(&acc[i], x) {
            assert(acc.deep_view()[i as int] == x@);
            return true;
        }
        assert(acc.deep_view()[i as int] == acc@[i as int]@);
        i = i + 1;
    }
    false
}

/// The index of the first occurrence of `needle` at or after `from`.
pub open spec fn spec_find(s: Seq<u8>, from: int, needle: u8) -> Option<int>
    decreases s.len() - from,
{
    if from < 0 || from >= s.len() {
        None
    } else if s[from] == needle {
        Some(from)
    } else {
        spec_find(s, from + 1, needle)
    }
}

/// A found index lies in `[from, len)`, holds the needle, and nothing
/// before it does.
pub proof fn lemma_spec_find(s: Seq<u8>, from: int, needle: u8)
    requires
        0 <= from <= s.len(),
    ensures
        match spec_find(s, from, needle) {
            Some(i) => from <= i < s.len() && s[i] == needle && forall|j: int|
                from <= j < i ==> s[j] != needle,
            None => forall|j: int| from <= j < s.len() ==> s[j] != needle,
        },
    decreases s.len() - from,
{
    if from < s.len() && s[from] != needle {
        lemma_spec_find(s, from + 1, needle);
    }
}

/// An index that holds the needle, with nothing before it doing so, is what
/// the search finds.
pub proof fn lemma_find_at(s: Seq<u8>, from: int, i: int, needle: u8)
    requires
        0 <= from <= i < s.len(),
        s[i] == needle,
        forall|j: int| from <= j < i ==> s[j] != needle,
    ensures
        spec_find(s, from, needle) == Some(i),
    decreases i - from,
{
    if from < i {
        lemma_find_at(s, from + 1, i, needle);
    }
}

/// Finds the first occurrence of `needle` at or after `from`.
pub fn find_byte(data: &Vec<u8>, from: usize, needle: u8) -> (r: Option<usize>)
    requires
        from <= data@.len(),
    ensures
        match r {
            Some(i) => from <= i < data@.len() && spec_find(data@, from as int, needle) == Some(
                i as int,
            ),
            None => spec_find(data@, from as int, needle) is None,
        },
{
    let mut i: usize = from;
    while i < data.len()
        invariant
            from <= i <= data@.len(),
            spec_find(data@, from as int, needle) == spec_find(data@, i as int, needle),
        decreases data@.len() - i,
    {
        if data[i] == needle {
            return Some(i);
        }
        i = i + 1;
    }
    None
}

} // verus!
