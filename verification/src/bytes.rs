//! Little-endian integers inside byte buffers.
use vstd::prelude::*;

verus! {

/// The value of the two bytes at `off`, least significant byte first.
pub open spec fn le16(s: Seq<u8>, off: int) -> u16 {
    (s[off] + 0x100 * s[off + 1]) as u16
}

/// The value of the four bytes at `off`, least significant byte first.
pub open spec fn le32(s: Seq<u8>, off: int) -> u32 {
    (s[off] + 0x100 * s[off + 1] + 0x1_0000 * s[off + 2] + 0x100_0000 * s[off + 3]) as u32
}

/// The value of the eight bytes at `off`, least significant byte first.
pub open spec fn le64(s: Seq<u8>, off: int) -> u64 {
    (le32(s, off) + 0x1_0000_0000 * le32(s, off + 4)) as u64
}

/// Reads the 16-bit integer stored at `off`.
pub fn read_u16(buf: &[u8], off: usize) -> (v: u16)
    requires
        off + 2 <= buf@.len(),
    ensures
        v == le16(buf@, off as int),
{
    buf[off] as u16 + 0x100 * (buf[off + 1] as u16)
}

/// Reads the 32-bit integer stored at `off`.
pub fn read_u32(buf: &[u8], off: usize) -> (v: u32)
    requires
        off + 4 <= buf@.len(),
    ensures
        v == le32(buf@, off as int),
{
    buf[off] as u32 + 0x100 * (buf[off + 1] as u32) + 0x1_0000 * (buf[off + 2] as u32)
        + 0x100_0000 * (buf[off + 3] as u32)
}

/// Reads the 64-bit integer stored at `off`.
pub fn read_u64(buf: &[u8], off: usize) -> (v: u64)
    requires
        off + 8 <= buf@.len(),
    ensures
        v == le64(buf@, off as int),
{
    assert(off + 8 <= buf.len());
    read_u32(buf, off) as u64 + 0x1_0000_0000 * (read_u32(buf, off + 4) as u64)
}

/// Stores `v` at `off`; every other byte is left as it was.
pub fn write_u16(buf: &mut [u8], off: usize, v: u16)
    requires
        off + 2 <= old(buf)@.len(),
    ensures
        final(buf)@.len() == old(buf)@.len(),
        le16(final(buf)@, off as int) == v,
        forall|i: int| 0 <= i < final(buf)@.len() && !(off <= i < off + 2) ==> final(buf)@[i] == old(buf)@[i],
{
    buf[off] = (v % 0x100) as u8;
    buf[off + 1] = (v / 0x100) as u8;
}

/// Stores `v` at `off`; every other byte is left as it was.
pub fn write_u32(buf: &mut [u8], off: usize, v: u32)
    requires
        off + 4 <= old(buf)@.len(),
    ensures
        final(buf)@.len() == old(buf)@.len(),
        le32(final(buf)@, off as int) == v,
        forall|i: int| 0 <= i < final(buf)@.len() && !(off <= i < off + 4) ==> final(buf)@[i] == old(buf)@[i],
{
    buf[off] = (v % 0x100) as u8;
    buf[off + 1] = (v / 0x100 % 0x100) as u8;
    buf[off + 2] = (v / 0x1_0000 % 0x100) as u8;
    buf[off + 3] = (v / 0x100_0000) as u8;
}

/// Stores `v` at `off`; every other byte is left as it was.
pub fn write_u64(buf: &mut [u8], off: usize, v: u64)
    requires
        off + 8 <= old(buf)@.len(),
    ensures
        final(buf)@.len() == old(buf)@.len(),
        le64(final(buf)@, off as int) == v,
        forall|i: int| 0 <= i < final(buf)@.len() && !(off <= i < off + 8) ==> final(buf)@[i] == old(buf)@[i],
{
    assert(off + 8 <= buf.len());
    write_u32(buf, off, (v % 0x1_0000_0000) as u32);
    write_u32(buf, off + 4, (v / 0x1_0000_0000) as u32);
}

/// The four bytes that store `v`.
pub open spec fn bytes32(v: u32) -> Seq<u8> {
    seq![
        (v % 0x100) as u8,
        (v / 0x100 % 0x100) as u8,
        (v / 0x1_0000 % 0x100) as u8,
        (v / 0x100_0000) as u8,
    ]
}

/// The eight bytes that store `v`.
pub open spec fn bytes64(v: u64) -> Seq<u8> {
    bytes32((v % 0x1_0000_0000) as u32) + bytes32((v / 0x1_0000_0000) as u32)
}

/// Storing what was read gives the bytes back.
pub proof fn lemma_bytes32_le32(s: Seq<u8>, off: int)
    requires
        0 <= off,
        off + 4 <= s.len(),
    ensures
        bytes32(le32(s, off)) == s.subrange(off, off + 4),
{
    let (a, b, c, d) = (s[off] as int, s[off + 1] as int, s[off + 2] as int, s[off + 3] as int);
    let v = le32(s, off) as int;
    assert(v == a + 0x100 * (b + 0x100 * (c + 0x100 * d)));
    assert(v % 0x100 == a);
    assert(v / 0x100 == b + 0x100 * (c + 0x100 * d));
    assert(v / 0x1_0000 == c + 0x100 * d);
    assert(v / 0x100_0000 == d);
    assert(bytes32(le32(s, off)) =~= s.subrange(off, off + 4));
}

/// Storing what was read gives the bytes back.
pub proof fn lemma_bytes64_le64(s: Seq<u8>, off: int)
    requires
        0 <= off,
        off + 8 <= s.len(),
    ensures
        bytes64(le64(s, off)) == s.subrange(off, off + 8),
{
    let v = le64(s, off);
    let a = le32(s, off);
    let b = le32(s, off + 4);
    assert(v == a + 0x1_0000_0000 * b);
    lemma_halves(v, a, b);
    lemma_bytes32_le32(s, off);
    lemma_bytes32_le32(s, off + 4);
    lemma_join(s, off, off + 4, off + 8);
}

proof fn lemma_halves(v: u64, a: u32, b: u32)
    requires
        v == a + 0x1_0000_0000 * b,
    ensures
        (v % 0x1_0000_0000) as u32 == a,
        (v / 0x1_0000_0000) as u32 == b,
{
}

/// Adjacent parts of a sequence join to one part.
pub proof fn lemma_join<T>(s: Seq<T>, a: int, b: int, c: int)
    requires
        0 <= a <= b <= c <= s.len(),
    ensures
        s.subrange(a, b) + s.subrange(b, c) == s.subrange(a, c),
{
    assert(s.subrange(a, b) + s.subrange(b, c) =~= s.subrange(a, c));
}

/// Two buffers that agree on the bytes of an integer hold the same integer there.
pub proof fn lemma_le_same(s: Seq<u8>, t: Seq<u8>, off: int, n: int)
    requires
        forall|i: int| off <= i < off + n ==> s[i] == t[i],
    ensures
        n >= 2 ==> le16(s, off) == le16(t, off),
        n >= 4 ==> le32(s, off) == le32(t, off),
        n >= 8 ==> le64(s, off) == le64(t, off),
{
}

} // verus!
