//! Little-endian integers, length-prefixed blobs and byte comparison.

use vstd::prelude::*;

verus! {

/// The two little-endian bytes of `x`.
#[verifier::opaque]
pub open spec fn le16(x: u16) -> Seq<u8> {
    seq![(x % 256) as u8, (x / 256) as u8]
}

/// The four little-endian bytes of `x`.
#[verifier::opaque]
pub open spec fn le32(x: u32) -> Seq<u8> {
    seq![
        (x % 256) as u8,
        ((x / 256) % 256) as u8,
        ((x / 65536) % 256) as u8,
        (x / 16777216) as u8,
    ]
}

/// The eight little-endian bytes of `x`.
#[verifier::opaque]
pub open spec fn le64(x: u64) -> Seq<u8> {
    seq![
        (x % 256) as u8,
        ((x / 0x100) % 256) as u8,
        ((x / 0x10000) % 256) as u8,
        ((x / 0x1000000) % 256) as u8,
        ((x / 0x100000000) % 256) as u8,
        ((x / 0x10000000000) % 256) as u8,
        ((x / 0x1000000000000) % 256) as u8,
        (x / 0x100000000000000) as u8,
    ]
}

/// The eight big-endian bytes of `x`.
pub open spec fn be64(x: u64) -> Seq<u8> {
    le64(x).reverse()
}

/// The integer whose little-endian bytes are `s`, for two bytes.
#[verifier::opaque]
pub open spec fn un16(s: Seq<u8>) -> u16 {
    (s[0] + 256 * s[1]) as u16
}

/// The integer whose little-endian bytes are `s`, for four bytes.
#[verifier::opaque]
pub open spec fn un32(s: Seq<u8>) -> u32 {
    (s[0] + 256 * s[1] + 65536 * s[2] + 16777216 * s[3]) as u32
}

/// The integer whose little-endian bytes are `s`, for eight bytes.
#[verifier::opaque]
pub open spec fn un64(s: Seq<u8>) -> u64 {
    (s[0] + 0x100 * s[1] + 0x10000 * s[2] + 0x1000000 * s[3] + 0x100000000 * s[4]
        + 0x10000000000 * s[5] + 0x1000000000000 * s[6] + 0x100000000000000 * s[7]) as u64
}

/// The bytes of `s` from `at`, `n` of them.
pub open spec fn part(s: Seq<u8>, at: int, n: int) -> Seq<u8> {
    s.subrange(at, at + n)
}

/// A blob: the length of `s` as a little-endian `u32`, followed by `s`.
pub open spec fn blob(s: Seq<u8>) -> Seq<u8> {
    le32(s.len() as u32) + s
}

/// `n` zero bytes.
pub open spec fn zeros(n: nat) -> Seq<u8> {
    Seq::new(n, |i: int| 0u8)
}

/// `le16` writes two bytes and `un16` reads them back.
pub broadcast proof fn lemma_le16(x: u16)
    ensures
        #![trigger le16(x)]
        le16(x).len() == 2,
        un16(le16(x)) == x,
{
    reveal(le16);
    reveal(un16);
}

/// `le32` writes four bytes and `un32` reads them back.
pub broadcast proof fn lemma_le32(x: u32)
    ensures
        #![trigger le32(x)]
        le32(x).len() == 4,
        un32(le32(x)) == x,
{
    reveal(le32);
    reveal(un32);
}

/// `le64` writes eight bytes and `un64` reads them back.
pub broadcast proof fn lemma_le64(x: u64)
    ensures
        #![trigger le64(x)]
        le64(x).len() == 8,
        un64(le64(x)) == x,
{
    reveal(le64);
    reveal(un64);
    assert(x % 256 + 0x100 * ((x / 0x100) % 256) + 0x10000 * ((x / 0x10000) % 256) + 0x1000000 * ((x
        / 0x1000000) % 256) + 0x100000000 * ((x / 0x100000000) % 256) + 0x10000000000 * ((x
        / 0x10000000000) % 256) + 0x1000000000000 * ((x / 0x1000000000000) % 256)
        + 0x100000000000000 * (x / 0x100000000000000) == x) by (bit_vector);
    assert(x / 0x100000000000000 < 256) by (bit_vector);
}

/// Two bytes are the little-endian bytes of the integer that they spell.
pub broadcast proof fn lemma_un16(s: Seq<u8>)
    requires
        s.len() == 2,
    ensures
        #![trigger un16(s)]
        le16(un16(s)) == s,
{
    reveal(le16);
    reveal(un16);
    assert(le16(un16(s)) =~= s);
}

/// Four bytes are the little-endian bytes of the integer that they spell.
pub broadcast proof fn lemma_un32(s: Seq<u8>)
    requires
        s.len() == 4,
    ensures
        #![trigger un32(s)]
        le32(un32(s)) == s,
{
    reveal(le32);
    reveal(un32);
    let (a, b, c, d) = (s[0], s[1], s[2], s[3]);
    let x = un32(s);
    assert(x % 256 == a && (x / 256) % 256 == b && (x / 65536) % 256 == c && x / 16777216 == d)
        by (bit_vector)
        requires
            x == a + 256 * b + 65536 * c + 16777216 * d,
    ;
    assert(le32(un32(s)) =~= s);
}

/// Eight bytes are the little-endian bytes of the integer that they spell.
pub broadcast proof fn lemma_un64(s: Seq<u8>)
    requires
        s.len() == 8,
    ensures
        #![trigger un64(s)]
        le64(un64(s)) == s,
{
    reveal(le64);
    reveal(un64);
    let (a, b, c, d, e, f, g, h) = (s[0], s[1], s[2], s[3], s[4], s[5], s[6], s[7]);
    let x = un64(s);
    assert(x % 256 == a && (x / 0x100) % 256 == b && (x / 0x10000) % 256 == c && (x / 0x1000000)
        % 256 == d && (x / 0x100000000) % 256 == e && (x / 0x10000000000) % 256 == f && (x
        / 0x1000000000000) % 256 == g && x / 0x100000000000000 == h) by (bit_vector)
        requires
            x == a + 0x100 * b + 0x10000 * c + 0x1000000 * d + 0x100000000 * e + 0x10000000000 * f
                + 0x1000000000000 * g + 0x100000000000000 * h,
    ;
    assert(le64(un64(s)) =~= s);
}

pub broadcast group group_le {
    lemma_le16,
    lemma_le32,
    lemma_le64,
    lemma_un16,
    lemma_un32,
    lemma_un64,
}

/// Append the two little-endian bytes of `x`.
pub fn push_u16(out: &mut Vec<u8>, x: u16)
    ensures
        final(out)@ == old(out)@ + le16(x),
{
    out.push((x % 256) as u8);
    out.push((x / 256) as u8);
    proof {
        reveal(le16);
        assert(out@ =~= old(out)@ + le16(x));
    }
}

/// Append the four little-endian bytes of `x`.
pub fn push_u32(out: &mut Vec<u8>, x: u32)
    ensures
        final(out)@ == old(out)@ + le32(x),
{
    out.push((x % 256) as u8);
    out.push(((x / 256) % 256) as u8);
    out.push(((x / 65536) % 256) as u8);
    out.push((x / 16777216) as u8);
    proof {
        reveal(le32);
        assert(out@ =~= old(out)@ + le32(x));
    }
}

/// Append the eight little-endian bytes of `x`.
pub fn push_u64(out: &mut Vec<u8>, x: u64)
    ensures
        final(out)@ == old(out)@ + le64(x),
{
    out.push((x % 256) as u8);
    out.push(((x / 0x100) % 256) as u8);
    out.push(((x / 0x10000) % 256) as u8);
    out.push(((x / 0x1000000) % 256) as u8);
    out.push(((x / 0x100000000) % 256) as u8);
    out.push(((x / 0x10000000000) % 256) as u8);
    out.push(((x / 0x1000000000000) % 256) as u8);
    out.push((x / 0x100000000000000) as u8);
    proof {
        reveal(le64);
        assert(out@ =~= old(out)@ + le64(x));
    }
}

/// Append `bytes`.
pub fn push_bytes(out: &mut Vec<u8>, bytes: &[u8])
    ensures
        final(out)@ == old(out)@ + bytes@,
{
    let ghost before = out@;
    let mut i: usize = 0;
    while i < bytes.len()
        invariant
            i <= bytes@.len(),
            out@ == before + bytes@.subrange(0, i as int),
        decreases bytes@.len() - i,
    {
        out.push(bytes[i]);
        i += 1;
        assert(out@ =~= before + bytes@.subrange(0, i as int));
    }
    assert(out@ =~= before + bytes@);
}

/// Append `count` zero bytes.
pub fn push_zeros(out: &mut Vec<u8>, count: usize)
    ensures
        final(out)@ == old(out)@ + zeros(count as nat),
{
    let ghost before = out@;
    let mut i: usize = 0;
    while i < count
        invariant
            i <= count,
            out@ == before + zeros(i as nat),
        decreases count - i,
    {
        out.push(0);
        i += 1;
        assert(out@ =~= before + zeros(i as nat));
    }
    assert(out@ =~= before + zeros(count as nat));
}

/// Copy `bytes` into a vector.
pub fn to_vec(bytes: &[u8]) -> (out: Vec<u8>)
    ensures
        out@ == bytes@,
{
    let mut out: Vec<u8> = Vec::new();
    push_bytes(&mut out, bytes);
    assert(out@ =~= bytes@);
    out
}

/// Overwrite `out` from `at` with `bytes`.
pub fn write_at(out: &mut Vec<u8>, at: usize, bytes: &[u8])
    requires
        at + bytes@.len() <= old(out)@.len(),
    ensures
        final(out)@ == overwritten(old(out)@, at as int, bytes@),
{
    let ghost before = out@;
    assert(out.len() == before.len());
    let mut i: usize = 0;
    while i < bytes.len()
        invariant
            i <= bytes@.len(),
            at + bytes@.len() <= before.len(),
            before.len() <= usize::MAX,
            out@.len() == before.len(),
            out@ == overwritten(before, at as int, bytes@.subrange(0, i as int)),
        decreases bytes@.len() - i,
    {
        out.set(at + i, bytes[i]);
        i += 1;
        assert(out@ =~= overwritten(before, at as int, bytes@.subrange(0, i as int)));
    }
    assert(bytes@.subrange(0, bytes@.len() as int) =~= bytes@);
}

/// `s` with the bytes from `at` replaced by `with`.
pub open spec fn overwritten(s: Seq<u8>, at: int, with: Seq<u8>) -> Seq<u8> {
    Seq::new(s.len(), |i: int| if at <= i < at + with.len() { with[i - at] } else { s[i] })
}

/// The little-endian `u16` at `at`.
pub fn read_u16(bytes: &[u8], at: usize) -> (x: u16)
    requires
        at + 2 <= bytes@.len(),
    ensures
        x == un16(part(bytes@, at as int, 2)),
{
    proof {
        reveal(un16);
    }
    (bytes[at] as u16) + 256 * (bytes[at + 1] as u16)
}

/// The little-endian `u32` at `at`.
pub fn read_u32(bytes: &[u8], at: usize) -> (x: u32)
    requires
        at + 4 <= bytes@.len(),
    ensures
        x == un32(part(bytes@, at as int, 4)),
{
    proof {
        reveal(un32);
    }
    (bytes[at] as u32) + 256 * (bytes[at + 1] as u32) + 65536 * (bytes[at + 2] as u32) + 16777216 * (
    bytes[at + 3] as u32)
}

/// The little-endian `u64` at `at`.
pub fn read_u64(bytes: &[u8], at: usize) -> (x: u64)
    requires
        at + 8 <= bytes@.len(),
    ensures
        x == un64(part(bytes@, at as int, 8)),
{
    proof {
        reveal(un64);
    }
    (bytes[at] as u64) + 0x100 * (bytes[at + 1] as u64) + 0x10000 * (bytes[at + 2] as u64)
        + 0x1000000 * (bytes[at + 3] as u64) + 0x100000000 * (bytes[at + 4] as u64) + 0x10000000000
        * (bytes[at + 5] as u64) + 0x1000000000000 * (bytes[at + 6] as u64) + 0x100000000000000 * (
    bytes[at + 7] as u64)
}

/// Whether two byte strings are equal.
pub fn same_bytes(a: &[u8], b: &[u8]) -> (same: bool)
    ensures
        same == (a@ == b@),
{
    if a.len() != b.len() {
        return false;
    }
    let mut i: usize = 0;
    while i < a.len()
        invariant
            i <= a@.len(),
            a@.len() == b@.len(),
            forall|k: int| 0 <= k < i ==> a@[k] == b@[k],
        decreases a@.len() - i,
    {
        if a[i] != b[i] {
            assert(a@[i as int] != b@[i as int]);
            return false;
        }
        i += 1;
    }
    assert(a@ =~= b@);
    true
}

/// Whether the bytes from `at` to `end` are all zero.
pub fn zero_between(bytes: &[u8], at: usize, end: usize) -> (zero: bool)
    requires
        at <= end <= bytes@.len(),
    ensures
        zero == (bytes@.subrange(at as int, end as int) == zeros((end - at) as nat)),
{
    let ghost target = bytes@.subrange(at as int, end as int);
    let mut i: usize = at;
    while i < end
        invariant
            at <= i <= end <= bytes@.len(),
            target == bytes@.subrange(at as int, end as int),
            forall|k: int| at <= k < i ==> bytes@[k] == 0,
        decreases end - i,
    {
        if bytes[i] != 0 {
            assert(target[i - at] != zeros((end - at) as nat)[i - at]);
            return false;
        }
        i += 1;
    }
    assert(target =~= zeros((end - at) as nat));
    true
}

/// Whether `byte` occurs in `bytes`.
pub fn contains_byte(bytes: &[u8], byte: u8) -> (found: bool)
    ensures
        found == bytes@.contains(byte),
{
    let mut i: usize = 0;
    while i < bytes.len()
        invariant
            i <= bytes@.len(),
            forall|k: int| 0 <= k < i ==> bytes@[k] != byte,
        decreases bytes@.len() - i,
    {
        if bytes[i] == byte {
            assert(bytes@[i as int] == byte);
            return true;
        }
        i += 1;
    }
    false
}

/// The little-endian bytes of several integers, one after the other.
pub open spec fn le64s(values: Seq<u64>) -> Seq<u8>
    decreases values.len(),
{
    if values.len() == 0 {
        Seq::empty()
    } else {
        le64s(values.drop_last()) + le64(values.last())
    }
}

/// The `n` integers whose little-endian bytes stand in `s` from `at`.
pub open spec fn un64s(s: Seq<u8>, at: int, n: nat) -> Seq<u64> {
    Seq::new(n, |i: int| un64(part(s, at + 8 * i, 8)))
}

/// What `le64s` writes, `un64s` reads back.
pub proof fn lemma_le64s(before: Seq<u8>, values: Seq<u64>, after: Seq<u8>)
    ensures
        le64s(values).len() == 8 * values.len(),
        un64s(before + le64s(values) + after, before.len() as int, values.len()) == values,
    decreases values.len(),
{
    broadcast use group_le;

    let whole = before + le64s(values) + after;
    if values.len() > 0 {
        let front = values.drop_last();
        let rest = le64(values.last()) + after;
        lemma_le64s(before, front, rest);
        assert(whole =~= before + le64s(front) + rest);
        let read = un64s(whole, before.len() as int, values.len());
        assert forall|i: int| 0 <= i < values.len() implies read[i] == values[i] by {
            if i < values.len() - 1 {
                assert(un64s(whole, before.len() as int, front.len())[i] == front[i]);
            } else {
                assert(part(whole, before.len() + 8 * i, 8) =~= le64(values.last()));
            }
        }
        assert(read =~= values);
    } else {
        assert(un64s(whole, before.len() as int, 0) =~= values);
    }
}

/// What `un64s` reads, `le64s` writes back.
pub proof fn lemma_un64s(s: Seq<u8>, at: int, n: nat)
    requires
        0 <= at,
        at + 8 * n <= s.len(),
    ensures
        le64s(un64s(s, at, n)) == part(s, at, 8 * n as int),
    decreases n,
{
    broadcast use group_le;

    if n > 0 {
        lemma_un64s(s, at, (n - 1) as nat);
        assert(un64s(s, at, n).drop_last() =~= un64s(s, at, (n - 1) as nat));
        assert(le64(un64(part(s, at + 8 * (n - 1), 8))) == part(s, at + 8 * (n - 1), 8));
        assert(part(s, at, 8 * n as int) =~= part(s, at, 8 * (n - 1)) + part(s, at + 8 * (n - 1), 8));
    } else {
        assert(part(s, at, 0) =~= Seq::empty());
    }
}

/// Copy 16 bytes from `at`.
pub fn sixteen_at(bytes: &[u8], at: usize) -> (part: [u8; 16])
    requires
        at + 16 <= bytes@.len(),
    ensures
        part@ == self::part(bytes@, at as int, 16),
{
    let mut out: [u8; 16] = [0; 16];
    let length: usize = bytes.len();
    let mut i: usize = 0;
    while i < 16
        invariant
            i <= 16,
            at + 16 <= bytes@.len() == length,
            forall|k: int| 0 <= k < i ==> out@[k] == bytes@[at + k],
        decreases 16 - i,
    {
        out[i] = bytes[at + i];
        i += 1;
    }
    assert(out@ =~= self::part(bytes@, at as int, 16));
    out
}

/// Copy 32 bytes from `at`.
pub fn thirty_two_at(bytes: &[u8], at: usize) -> (part: [u8; 32])
    requires
        at + 32 <= bytes@.len(),
    ensures
        part@ == self::part(bytes@, at as int, 32),
{
    let mut out: [u8; 32] = [0; 32];
    let length: usize = bytes.len();
    let mut i: usize = 0;
    while i < 32
        invariant
            i <= 32,
            at + 32 <= bytes@.len() == length,
            forall|k: int| 0 <= k < i ==> out@[k] == bytes@[at + k],
        decreases 32 - i,
    {
        out[i] = bytes[at + i];
        i += 1;
    }
    assert(out@ =~= self::part(bytes@, at as int, 32));
    out
}

/// Whether two 32-byte strings are equal.
pub fn same_digest(a: &[u8; 32], b: &[u8; 32]) -> (same: bool)
    ensures
        same == (a@ == b@),
{
    same_bytes(a.as_slice(), b.as_slice())
}

/// Whether sixteen bytes are all zero.
pub fn is_zero(id: &[u8; 16]) -> (zero: bool)
    ensures
        zero == (id@ == zeros(16)),
{
    let zero = zero_between(id.as_slice(), 0, 16);
    assert(id@.subrange(0, 16) =~= id@);
    zero
}

} // verus!
