//! Integers in byte sequences.

use vstd::arithmetic::div_mod::lemma_div_denominator;
use vstd::prelude::*;

verus! {

/// The low 16 bits of `v`, little end first.
pub open spec fn le16(v: int) -> Seq<u8> {
    seq![(v % 256) as u8, (v / 256 % 256) as u8]
}

/// The low 32 bits of `v`, little end first.
pub open spec fn le32(v: int) -> Seq<u8> {
    seq![
        (v % 256) as u8,
        (v / 256 % 256) as u8,
        (v / 65536 % 256) as u8,
        (v / 16777216 % 256) as u8,
    ]
}

/// The 32-bit number that starts at `pos`, little end first.
pub open spec fn read32(s: Seq<u8>, pos: int) -> int {
    s[pos] + 256 * s[pos + 1] + 65536 * s[pos + 2] + 16777216 * s[pos + 3]
}

/// The 16-bit number that starts at `pos`, big end first.
pub open spec fn read16_be(s: Seq<u8>, pos: int) -> int {
    256 * s[pos] + s[pos + 1]
}

/// Reads a 16-bit number, big end first.
pub fn u16_be(s: &[u8], pos: usize) -> (v: usize)
    requires
        pos + 1 < s@.len(),
    ensures
        v == read16_be(s@, pos as int),
        v < 0x1_0000,
{
    256 * s[pos] as usize + s[pos + 1] as usize
}

/// The four bytes of `v`, little end first.
pub fn le32_bytes(v: u32) -> (r: [u8; 4])
    ensures
        r@ == le32(v as int),
{
    [
        (v % 256) as u8,
        (v / 256 % 256) as u8,
        (v / 65536 % 256) as u8,
        (v / 16777216 % 256) as u8,
    ]
}

/// Appends the low 16 bits of `v`.
pub fn put16(out: &mut Vec<u8>, v: u32)
    ensures
        final(out)@ == old(out)@ + le16(v as int),
{
    out.push((v % 256) as u8);
    out.push((v / 256 % 256) as u8);
    assert(out@ =~= old(out)@ + le16(v as int));
}

/// Appends `v`.
pub fn put32(out: &mut Vec<u8>, v: u32)
    ensures
        final(out)@ == old(out)@ + le32(v as int),
{
    out.push((v % 256) as u8);
    out.push((v / 256 % 256) as u8);
    out.push((v / 65536 % 256) as u8);
    out.push((v / 16777216 % 256) as u8);
    assert(out@ =~= old(out)@ + le32(v as int));
}

/// Appends four bytes.
pub fn put_id(out: &mut Vec<u8>, id: [u8; 4])
    ensures
        final(out)@ == old(out)@ + id@,
{
    out.push(id[0]);
    out.push(id[1]);
    out.push(id[2]);
    out.push(id[3]);
    assert(out@ =~= old(out)@ + id@);
}

/// Appends a slice.
pub fn put_all(out: &mut Vec<u8>, bytes: &[u8])
    ensures
        final(out)@ == old(out)@ + bytes@,
{
    out.extend_from_slice(bytes);
    assert(out@ =~= old(out)@ + bytes@);
}

/// The low 32 bits of a length.
pub fn low32(n: usize) -> (r: u32)
    ensures
        r == n as int % 0x1_0000_0000,
{
    (n as u64 % 0x1_0000_0000) as u32
}

proof fn lemma_bytes(v: int)
    requires
        v >= 0,
    ensures
        v % 256 + 256 * (v / 256 % 256) + 65536 * (v / 65536 % 256) + 16777216 * (v / 16777216
            % 256) == v % 0x1_0000_0000,
{
    lemma_div_denominator(v, 256, 256);
    lemma_div_denominator(v, 65536, 256);
    let q1 = v / 256;
    let q2 = v / 65536;
    let q3 = v / 16777216;
    let q4 = q3 / 256;
    assert(v == 256 * q1 + v % 256);
    assert(q1 == 256 * q2 + q1 % 256);
    assert(q2 == 256 * q3 + q2 % 256);
    assert(q3 == 256 * q4 + q3 % 256);
}

/// A 32-bit number is read back as it was written.
pub proof fn le32_reads_back(v: int, before: Seq<u8>, after: Seq<u8>)
    requires
        v >= 0,
    ensures
        read32(before + le32(v) + after, before.len() as int) == v % 0x1_0000_0000,
{
    let s = before + le32(v) + after;
    let p = before.len() as int;
    assert(s[p] == le32(v)[0]);
    assert(s[p + 1] == le32(v)[1]);
    assert(s[p + 2] == le32(v)[2]);
    assert(s[p + 3] == le32(v)[3]);
    lemma_bytes(v);
}

/// Only the low 32 bits of a number are written.
pub proof fn le32_truncates(v: int)
    requires
        v >= 0,
    ensures
        le32(v % 0x1_0000_0000) == le32(v),
{
    let w = v % 0x1_0000_0000;
    lemma_same_digits(v, w);
    assert(le32(v) =~= le32(w));
}

proof fn lemma_same_digits(v: int, w: int)
    requires
        v >= 0,
        w == v % 0x1_0000_0000,
    ensures
        w % 256 == v % 256,
        w / 256 % 256 == v / 256 % 256,
        w / 65536 % 256 == v / 65536 % 256,
        w / 16777216 % 256 == v / 16777216 % 256,
{
    let q = v / 0x1_0000_0000;
    assert(v == 0x1_0000_0000 * q + w);
    assert(v / 256 == 16777216 * q + w / 256);
    assert(v / 65536 == 65536 * q + w / 65536);
    assert(v / 16777216 == 256 * q + w / 16777216);
}

/// The bytes of a number, the lowest first: each is the next digit to base 256.
pub proof fn little_end_first(v: int)
    requires
        0 <= v < 0x1_0000_0000,
    ensures
        le32(v).len() == 4,
        le32(v)[0] + 256 * le32(v)[1] + 65536 * le32(v)[2] + 16777216 * le32(v)[3] == v,
        le16(v).len() == 2,
        le16(v)[0] + 256 * le16(v)[1] == v % 65536,
{
    lemma_bytes(v);
    lemma_div_denominator(v, 256, 256);
    assert(v == 256 * (v / 256) + v % 256);
}

/// What is read is what the bytes stand for, the lowest or the highest first.
pub proof fn numbers_are_read_byte_by_byte(s: Seq<u8>, pos: int)
    ensures
        read32(s, pos) == s[pos] + 0x100 * s[pos + 1] + 0x1_0000 * s[pos + 2] + 0x100_0000 * s[pos
            + 3],
        read16_be(s, pos) == 0x100 * s[pos] + s[pos + 1],
{
}

} // verus!
