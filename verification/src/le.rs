//! Little-endian byte encodings of 16- and 32-bit integers.

use vstd::prelude::*;

verus! {

/// Low byte of a 16-bit value.
pub open spec fn lo8(v: u16) -> u8 {
    (v & 0xff) as u8
}

/// High byte of a 16-bit value.
pub open spec fn hi8(v: u16) -> u8 {
    (v >> 8) as u8
}

/// The two little-endian bytes of `v`.
pub open spec fn le16(v: u16) -> Seq<u8> {
    seq![lo8(v), hi8(v)]
}

/// The 16-bit value whose little-endian bytes are `lo`, `hi`.
pub open spec fn u16_of(lo: u8, hi: u8) -> u16 {
    ((lo as u16) | ((hi as u16) << 8)) as u16
}

/// The 16-bit little-endian value stored at byte offset `i` of `b`.
pub open spec fn read16(b: Seq<u8>, i: int) -> u16 {
    u16_of(b[i], b[i + 1])
}

/// The little-endian bytes of every value of `s`, in order.
pub open spec fn le16_seq(s: Seq<u16>) -> Seq<u8> {
    Seq::new(2 * s.len(), |i: int| if i % 2 == 0 { lo8(s[i / 2]) } else { hi8(s[i / 2]) })
}

/// The 16-bit values read from consecutive little-endian byte pairs of `b`.
pub open spec fn read16_seq(b: Seq<u8>, n: nat) -> Seq<u16> {
    Seq::new(n, |k: int| read16(b, 2 * k))
}

/// The four little-endian bytes of `v`.
pub open spec fn le32(v: u32) -> Seq<u8> {
    seq![(v & 0xff) as u8, ((v >> 8) & 0xff) as u8, ((v >> 16) & 0xff) as u8, ((v >> 24) & 0xff) as u8]
}

/// The 32-bit value whose little-endian bytes are `b0` to `b3`.
pub open spec fn u32_of(b0: u8, b1: u8, b2: u8, b3: u8) -> u32 {
    ((b0 as u32) | ((b1 as u32) << 8) | ((b2 as u32) << 16) | ((b3 as u32) << 24)) as u32
}

/// The 32-bit little-endian value stored at byte offset `i` of `b`.
pub open spec fn read32(b: Seq<u8>, i: int) -> u32 {
    u32_of(b[i], b[i + 1], b[i + 2], b[i + 3])
}

/// Little-endian means least significant byte first: the bytes of a 16-
/// and a 32-bit value are its base-256 digits from the lowest up, and
/// reading bytes back weighs each by 256 to the power of its position.
pub proof fn lemma_le_digits(v: u16, w: u32, b0: u8, b1: u8, b2: u8, b3: u8)
    ensures
        le16(v)[0] as int == v as int % 256,
        le16(v)[1] as int == v as int / 256,
        le32(w)[0] as int == w as int % 256,
        le32(w)[1] as int == (w as int / 256) % 256,
        le32(w)[2] as int == (w as int / 65536) % 256,
        le32(w)[3] as int == w as int / 16777216,
        u16_of(b0, b1) as int == b0 as int + 256 * b1 as int,
        u32_of(b0, b1, b2, b3) as int == b0 as int + 256 * b1 as int + 65536 * b2 as int + 16777216
            * b3 as int,
{
    assert(((v & 0xff) as u8) as u16 == v % 256 && ((v >> 8) as u8) as u16 == v / 256) by (bit_vector);
    assert(((w & 0xff) as u8) as u32 == w % 256 && (((w >> 8) & 0xff) as u8) as u32 == (w / 256) % 256
        && (((w >> 16) & 0xff) as u8) as u32 == (w / 65536) % 256 && (((w >> 24) & 0xff) as u8) as u32
        == w / 16777216) by (bit_vector);
    assert((((b0 as u16) | ((b1 as u16) << 8)) as u16) == (b0 as u16) + 256 * (b1 as u16)) by (bit_vector);
    assert((((b0 as u32) | ((b1 as u32) << 8) | ((b2 as u32) << 16) | ((b3 as u32) << 24)) as u32) == (
    b0 as u32) + 256 * (b1 as u32) + 65536 * (b2 as u32) + 16777216 * (b3 as u32)) by (bit_vector);
}

/// Reading back the two bytes of a 16-bit value gives the value.
pub proof fn lemma_u16_roundtrip(v: u16)
    ensures
        u16_of(lo8(v), hi8(v)) == v,
{
    assert(((((v & 0xff) as u8) as u16) | ((((v >> 8) as u8) as u16) << 8)) as u16 == v)
        by (bit_vector);
}

/// Reading back the four bytes of a 32-bit value gives the value.
pub proof fn lemma_u32_roundtrip(v: u32)
    ensures
        u32_of(
            (v & 0xff) as u8,
            ((v >> 8) & 0xff) as u8,
            ((v >> 16) & 0xff) as u8,
            ((v >> 24) & 0xff) as u8,
        ) == v,
{
    assert((((((v & 0xff) as u8) as u32) | (((((v >> 8) & 0xff) as u8) as u32) << 8) | (((((v
        >> 16) & 0xff) as u8) as u32) << 16) | (((((v >> 24) & 0xff) as u8) as u32) << 24))
        as u32) == v) by (bit_vector);
}

/// Every value of a sequence is read back from its little-endian bytes.
pub proof fn lemma_read16_seq_of_le16_seq(s: Seq<u16>, off: Seq<u8>, tail: Seq<u8>)
    ensures
        read16_seq((off + le16_seq(s) + tail).skip(off.len() as int), s.len()) =~= s,
{
    let b = off + le16_seq(s) + tail;
    assert forall|k: int| 0 <= k < s.len() implies #[trigger] read16(
        b.skip(off.len() as int),
        2 * k,
    ) == s[k] by {
        assert(b.skip(off.len() as int)[2 * k] == le16_seq(s)[2 * k]);
        assert(b.skip(off.len() as int)[2 * k + 1] == le16_seq(s)[2 * k + 1]);
        assert((2 * k) / 2 == k);
        assert((2 * k + 1) / 2 == k);
        assert((2 * k + 1) % 2 == 1);
        lemma_u16_roundtrip(s[k]);
    }
}

/// Decodes the 16-bit little-endian value at `i`.
pub fn get16(b: &[u8], i: usize) -> (r: u16)
    requires
        i + 1 < b@.len(),
    ensures
        r == read16(b@, i as int),
{
    (b[i] as u16) | ((b[i + 1] as u16) << 8)
}

/// Decodes the 32-bit little-endian value at `i`.
pub fn get32(b: &[u8], i: usize) -> (r: u32)
    requires
        i + 3 < b@.len(),
    ensures
        r == read32(b@, i as int),
{
    (b[i] as u32) | ((b[i + 1] as u32) << 8) | ((b[i + 2] as u32) << 16) | ((b[i + 3] as u32) << 24)
}

/// Appends the little-endian bytes of `v`.
pub fn push16(out: &mut Vec<u8>, v: u16)
    ensures
        final(out)@ == old(out)@ + le16(v),
{
    out.push((v & 0xff) as u8);
    out.push((v >> 8) as u8);
    assert(final(out)@ =~= old(out)@ + le16(v));
}

/// Appends the little-endian bytes of `v`.
pub fn push32(out: &mut Vec<u8>, v: u32)
    ensures
        final(out)@ == old(out)@ + le32(v),
{
    out.push((v & 0xff) as u8);
    out.push(((v >> 8) & 0xff) as u8);
    out.push(((v >> 16) & 0xff) as u8);
    out.push(((v >> 24) & 0xff) as u8);
    assert(final(out)@ =~= old(out)@ + le32(v));
}

/// Appends the little-endian bytes of every value of `vals`.
pub fn push16_all(out: &mut Vec<u8>, vals: &[u16])
    ensures
        final(out)@ == old(out)@ + le16_seq(vals@),
{
    let ghost start = out@;
    let mut i: usize = 0;
    while i < vals.len()
        invariant
            i <= vals@.len(),
            out@ =~= start + le16_seq(vals@.take(i as int)),
        decreases vals@.len() - i,
    {
        push16(out, vals[i]);
        i = i + 1;
        assert(le16_seq(vals@.take(i as int)) =~= le16_seq(vals@.take(i - 1)) + le16(vals@[i - 1]));
    }
    assert(vals@.take(i as int) =~= vals@);
}

} // verus!

verus! {

/// A 16-bit value reads back from its bytes inside a longer sequence.
pub proof fn lemma_read16_le16(pre: Seq<u8>, v: u16, post: Seq<u8>)
    ensures
        read16(pre + le16(v) + post, pre.len() as int) == v,
{
    let b = pre + le16(v) + post;
    assert(b[pre.len() as int] == lo8(v));
    assert(b[pre.len() as int + 1] == hi8(v));
    lemma_u16_roundtrip(v);
}

/// Each value of a sequence reads back from its bytes inside a longer
/// sequence.
pub proof fn lemma_read16_at(pre: Seq<u8>, s: Seq<u16>, post: Seq<u8>, k: int)
    requires
        0 <= k < s.len(),
    ensures
        read16(pre + le16_seq(s) + post, pre.len() + 2 * k) == s[k],
{
    let b = pre + le16_seq(s) + post;
    assert(b[pre.len() + 2 * k] == le16_seq(s)[2 * k]);
    assert(b[pre.len() + 2 * k + 1] == le16_seq(s)[2 * k + 1]);
    assert((2 * k) / 2 == k);
    assert((2 * k + 1) / 2 == k);
    assert((2 * k + 1) % 2 == 1);
    lemma_u16_roundtrip(s[k]);
}

} // verus!

verus! {

/// A 32-bit value reads back from its bytes inside a longer sequence.
pub proof fn lemma_read32_le32(pre: Seq<u8>, v: u32, post: Seq<u8>)
    ensures
        read32(pre + le32(v) + post, pre.len() as int) == v,
{
    let b = pre + le32(v) + post;
    let i = pre.len() as int;
    assert(b[i] == (v & 0xff) as u8);
    assert(b[i + 1] == ((v >> 8) & 0xff) as u8);
    assert(b[i + 2] == ((v >> 16) & 0xff) as u8);
    assert(b[i + 3] == ((v >> 24) & 0xff) as u8);
    lemma_u32_roundtrip(v);
}

/// The little-endian bytes of every value of `s`, in order.
pub open spec fn le32_seq(s: Seq<u32>) -> Seq<u8> {
    Seq::new(4 * s.len(), |i: int| le32(s[i / 4])[i % 4])
}

/// The 32-bit values read from consecutive little-endian groups of four
/// bytes of `b`.
pub open spec fn read32_seq(b: Seq<u8>, n: nat) -> Seq<u32> {
    Seq::new(n, |k: int| read32(b, 4 * k))
}

/// Appends the little-endian bytes of every value of `vals`.
pub fn push32_all(out: &mut Vec<u8>, vals: &[u32])
    ensures
        final(out)@ == old(out)@ + le32_seq(vals@),
{
    let ghost start = out@;
    let mut i: usize = 0;
    while i < vals.len()
        invariant
            i <= vals@.len(),
            out@ =~= start + le32_seq(vals@.take(i as int)),
        decreases vals@.len() - i,
    {
        push32(out, vals[i]);
        i = i + 1;
        assert(le32_seq(vals@.take(i as int)) =~= le32_seq(vals@.take(i - 1)) + le32(vals@[i - 1]));
    }
    assert(vals@.take(i as int) =~= vals@);
}

/// Each value of a sequence reads back from its bytes inside a longer
/// sequence.
pub proof fn lemma_read32_at(pre: Seq<u8>, s: Seq<u32>, post: Seq<u8>, k: int)
    requires
        0 <= k < s.len(),
    ensures
        read32(pre + le32_seq(s) + post, pre.len() + 4 * k) == s[k],
{
    let b = pre + le32_seq(s) + post;
    let i = pre.len() + 4 * k;
    assert(b.subrange(i, i + 4) =~= le32(s[k]));
    assert(b =~= b.take(i) + le32(s[k]) + b.skip(i + 4));
    lemma_read32_le32(b.take(i), s[k], b.skip(i + 4));
}

} // verus!
