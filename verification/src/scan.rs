//! The entropy-coded data of a JPEG scan: how far its codes reach, and how large the
//! values are that they stand for. No picture comes out of it.

use vstd::arithmetic::power2::{
    lemma2_to64, lemma_pow2_strictly_increases, lemma_pow2_unfold, pow2,
};
use vstd::prelude::*;

verus! {

/// The Huffman tables that a motion JPEG may leave out, laid out as in a DHT segment:
/// those for DC values, then those for AC values.
pub const USUAL_TABLES: [u8; 416] = [
    0x00, 0x00, 0x01, 0x05, 0x01, 0x01, 0x01, 0x01, 0x01, 0x01, 0x00, 0x00, 0x00, 0x00,
    0x00, 0x00, 0x00, 0x00, 0x01, 0x02, 0x03, 0x04, 0x05, 0x06, 0x07, 0x08, 0x09, 0x0A,
    0x0B, 0x01, 0x00, 0x03, 0x01, 0x01, 0x01, 0x01, 0x01, 0x01, 0x01, 0x01, 0x01, 0x00,
    0x00, 0x00, 0x00, 0x00, 0x00, 0x01, 0x02, 0x03, 0x04, 0x05, 0x06, 0x07, 0x08, 0x09,
    0x0A, 0x0B, 0x10, 0x00, 0x02, 0x01, 0x03, 0x03, 0x02, 0x04, 0x03, 0x05, 0x05, 0x04,
    0x04, 0x00, 0x00, 0x01, 0x7D, 0x01, 0x02, 0x03, 0x00, 0x04, 0x11, 0x05, 0x12, 0x21,
    0x31, 0x41, 0x06, 0x13, 0x51, 0x61, 0x07, 0x22, 0x71, 0x14, 0x32, 0x81, 0x91, 0xA1,
    0x08, 0x23, 0x42, 0xB1, 0xC1, 0x15, 0x52, 0xD1, 0xF0, 0x24, 0x33, 0x62, 0x72, 0x82,
    0x09, 0x0A, 0x16, 0x17, 0x18, 0x19, 0x1A, 0x25, 0x26, 0x27, 0x28, 0x29, 0x2A, 0x34,
    0x35, 0x36, 0x37, 0x38, 0x39, 0x3A, 0x43, 0x44, 0x45, 0x46, 0x47, 0x48, 0x49, 0x4A,
    0x53, 0x54, 0x55, 0x56, 0x57, 0x58, 0x59, 0x5A, 0x63, 0x64, 0x65, 0x66, 0x67, 0x68,
    0x69, 0x6A, 0x73, 0x74, 0x75, 0x76, 0x77, 0x78, 0x79, 0x7A, 0x83, 0x84, 0x85, 0x86,
    0x87, 0x88, 0x89, 0x8A, 0x92, 0x93, 0x94, 0x95, 0x96, 0x97, 0x98, 0x99, 0x9A, 0xA2,
    0xA3, 0xA4, 0xA5, 0xA6, 0xA7, 0xA8, 0xA9, 0xAA, 0xB2, 0xB3, 0xB4, 0xB5, 0xB6, 0xB7,
    0xB8, 0xB9, 0xBA, 0xC2, 0xC3, 0xC4, 0xC5, 0xC6, 0xC7, 0xC8, 0xC9, 0xCA, 0xD2, 0xD3,
    0xD4, 0xD5, 0xD6, 0xD7, 0xD8, 0xD9, 0xDA, 0xE1, 0xE2, 0xE3, 0xE4, 0xE5, 0xE6, 0xE7,
    0xE8, 0xE9, 0xEA, 0xF1, 0xF2, 0xF3, 0xF4, 0xF5, 0xF6, 0xF7, 0xF8, 0xF9, 0xFA, 0x11,
    0x00, 0x02, 0x01, 0x02, 0x04, 0x04, 0x03, 0x04, 0x07, 0x05, 0x04, 0x04, 0x00, 0x01,
    0x02, 0x77, 0x00, 0x01, 0x02, 0x03, 0x11, 0x04, 0x05, 0x21, 0x31, 0x06, 0x12, 0x41,
    0x51, 0x07, 0x61, 0x71, 0x13, 0x22, 0x32, 0x81, 0x08, 0x14, 0x42, 0x91, 0xA1, 0xB1,
    0xC1, 0x09, 0x23, 0x33, 0x52, 0xF0, 0x15, 0x62, 0x72, 0xD1, 0x0A, 0x16, 0x24, 0x34,
    0xE1, 0x25, 0xF1, 0x17, 0x18, 0x19, 0x1A, 0x26, 0x27, 0x28, 0x29, 0x2A, 0x35, 0x36,
    0x37, 0x38, 0x39, 0x3A, 0x43, 0x44, 0x45, 0x46, 0x47, 0x48, 0x49, 0x4A, 0x53, 0x54,
    0x55, 0x56, 0x57, 0x58, 0x59, 0x5A, 0x63, 0x64, 0x65, 0x66, 0x67, 0x68, 0x69, 0x6A,
    0x73, 0x74, 0x75, 0x76, 0x77, 0x78, 0x79, 0x7A, 0x82, 0x83, 0x84, 0x85, 0x86, 0x87,
    0x88, 0x89, 0x8A, 0x92, 0x93, 0x94, 0x95, 0x96, 0x97, 0x98, 0x99, 0x9A, 0xA2, 0xA3,
    0xA4, 0xA5, 0xA6, 0xA7, 0xA8, 0xA9, 0xAA, 0xB2, 0xB3, 0xB4, 0xB5, 0xB6, 0xB7, 0xB8,
    0xB9, 0xBA, 0xC2, 0xC3, 0xC4, 0xC5, 0xC6, 0xC7, 0xC8, 0xC9, 0xCA, 0xD2, 0xD3, 0xD4,
    0xD5, 0xD6, 0xD7, 0xD8, 0xD9, 0xDA, 0xE2, 0xE3, 0xE4, 0xE5, 0xE6, 0xE7, 0xE8, 0xE9,
    0xEA, 0xF2, 0xF3, 0xF4, 0xF5, 0xF6, 0xF7, 0xF8, 0xF9, 0xFA,
];

/// Where each of the usual tables starts.
pub const USUAL_DC_0: usize = 0;

pub const USUAL_DC_1: usize = 29;

pub const USUAL_AC_0: usize = 58;

pub const USUAL_AC_1: usize = 237;

/// The most that the values of one block may add up to, each taken without its sign and
/// times its quantization step.
///
/// In both passes of the decoder's inverse transform a value is multiplied by 13715 at
/// most, and between the passes it grows by a factor below 5.56: with this limit no
/// intermediate sum leaves 32 bits. Rounding encoders stay below 16384 or so.
pub const BLOCK_LIMIT: u64 = 28_000;

/// How many bits there are where no marker ends them: more than any picture takes.
pub const ENDLESS: u64 = 0x4000_0000_0000_0000;

/// The longest file that is looked at.
pub const FILE_LIMIT: usize = 0x7FFF_FFFF;

/// A byte of the file, or, behind its end, of the usual tables.
pub open spec fn byte_at(d: Seq<u8>, i: int) -> u8 {
    if i < d.len() {
        d[i]
    } else if i - d.len() < 416 {
        USUAL_TABLES@[i - d.len()]
    } else {
        0
    }
}

/// Reads a byte of the file, or, behind its end, of the usual tables.
pub fn get_byte(d: &[u8], i: usize) -> (b: u8)
    ensures
        b == byte_at(d@, i as int),
{
    if i < d.len() {
        d[i]
    } else if i - d.len() < 416 {
        USUAL_TABLES[i - d.len()]
    } else {
        0
    }
}

/// The first place from `p` on without a fill byte.
pub open spec fn past_fill(d: Seq<u8>, p: int) -> int
    decreases d.len() - p,
{
    if p < d.len() && d[p] == 0xFF {
        past_fill(d, p + 1)
    } else {
        p
    }
}

/// The data bytes from `p` up to the next marker or to the end of the file: a zero byte
/// behind 0xFF is stuffing.
pub open spec fn data_bytes(d: Seq<u8>, p: int) -> Seq<u8>
    decreases d.len() - p,
{
    if p >= d.len() {
        Seq::empty()
    } else if d[p] != 0xFF {
        seq![d[p]] + data_bytes(d, p + 1)
    } else {
        let q = past_fill(d, p + 1);
        if q >= d.len() {
            seq![0xFFu8]
        } else if d[q] == 0 && q > p {
            seq![0xFFu8] + data_bytes(d, q + 1)
        } else {
            Seq::empty()
        }
    }
}

/// A run of bits: those of some bytes, most significant first, and, where no marker
/// ends it, zeros behind them.
pub struct Bits {
    pub bytes: Seq<u8>,
    pub endless: bool,
}

/// A run of bits.
pub struct BitRun {
    pub bytes: Vec<u8>,
    pub endless: bool,
}

impl View for BitRun {
    type V = Bits;

    open spec fn view(&self) -> Bits {
        Bits { bytes: self.bytes@, endless: self.endless }
    }
}

/// Whether `n` more bits come at `pos`.
pub open spec fn has_bits(b: Bits, pos: int, n: int) -> bool {
    pos + n <= 8 * b.bytes.len() || (b.endless && pos + n <= ENDLESS)
}

/// The bit at `pos`.
pub open spec fn bit_at(b: Bits, pos: int) -> int {
    if pos / 8 < b.bytes.len() && (b.bytes[pos / 8] >> ((7 - pos % 8) as u8)) & 1u8 == 1u8 {
        1
    } else {
        0
    }
}

/// The number in the `n` bits at `pos`.
pub open spec fn number_at(b: Bits, pos: int, n: nat) -> int
    decreases n,
{
    if n == 0 {
        0
    } else {
        2 * number_at(b, pos, (n - 1) as nat) + bit_at(b, pos + n - 1)
    }
}

/// The value that `n` extra bits stand for: the upper half of the numbers as they are,
/// the lower half as negative ones.
pub open spec fn extended(x: int, n: nat) -> int {
    if n > 0 && x < pow2((n - 1) as nat) {
        x - pow2(n) + 1
    } else {
        x
    }
}

/// A number without its sign.
pub open spec fn size_of(v: int) -> int {
    if v < 0 {
        -v
    } else {
        v
    }
}

/// The size of the value in the `n` extra bits at `pos`.
pub open spec fn extra_size(b: Bits, pos: int, n: nat) -> int {
    size_of(extended(number_at(b, pos, n), n))
}

/// The symbol that starts at `pos`, and where it ends, by the Huffman table at `t`, from
/// its codes of more than `len` bits on: `code` has been read so far, `first` is the
/// next length's first code, and `index` the number of shorter codes.
pub open spec fn symbol_from(
    d: Seq<u8>,
    t: int,
    b: Bits,
    pos: int,
    len: nat,
    code: int,
    first: int,
    index: int,
) -> Option<(u8, int)>
    decreases 16 - len,
{
    if len >= 16 || !has_bits(b, pos, 1) {
        None
    } else {
        let c = 2 * code + bit_at(b, pos);
        let n = byte_at(d, t + 1 + len) as int;
        if c < first {
            None
        } else if c - first < n {
            Some((byte_at(d, t + 17 + index + (c - first)), pos + 1))
        } else {
            symbol_from(d, t, b, pos + 1, len + 1, c, 2 * (first + n), index + n)
        }
    }
}

/// The symbol that starts at `pos`, and where it ends, by the Huffman table at `t`.
pub open spec fn symbol_at(d: Seq<u8>, t: int, b: Bits, pos: int) -> Option<(u8, int)> {
    symbol_from(d, t, b, pos, 0, 0, 0, 0)
}

/// The `k`th step of the quantization table at `q`.
pub open spec fn step_at(d: Seq<u8>, q: int, k: int) -> int {
    if byte_at(d, q) / 16 == 0 {
        byte_at(d, q + 1 + k) as int
    } else {
        256 * byte_at(d, q + 1 + 2 * k) + byte_at(d, q + 2 + 2 * k)
    }
}

/// Where a block ends whose AC values go on at `pos` with the `k`th, by the tables at `t`
/// and `q`, if its values add up to no more than the limit; they are at `sum` so far.
pub open spec fn ac_end(
    d: Seq<u8>,
    t: int,
    q: int,
    b: Bits,
    pos: int,
    k: int,
    sum: int,
) -> Option<int>
    decreases 80 - k,
{
    if k >= 64 {
        Some(pos)
    } else {
        match symbol_at(d, t, b, pos) {
            None => None,
            Some((rs, p)) => {
                let (r, s) = (rs as int / 16, rs as int % 16);
                if s == 0 {
                    if r == 15 {
                        ac_end(d, t, q, b, p, k + 16, sum)
                    } else {
                        Some(p)
                    }
                } else if k + r > 63 || !has_bits(b, p, s) {
                    None
                } else {
                    let grown = sum + extra_size(b, p, s as nat) * step_at(d, q, k + r);
                    if grown > BLOCK_LIMIT {
                        None
                    } else {
                        ac_end(d, t, q, b, p + s, k + r + 1, grown)
                    }
                }
            },
        }
    }
}

/// The DC value that follows `dc`, and where it ends; its symbol stands at `pos`.
pub open spec fn dc_after(d: Seq<u8>, t: int, b: Bits, pos: int, dc: int) -> Option<(int, int)> {
    match symbol_at(d, t, b, pos) {
        None => None,
        Some((s, p)) => if s > 15 || !has_bits(b, p, s as int) {
            None
        } else {
            Some((dc + extended(number_at(b, p, s as nat), s as nat), p + s))
        },
    }
}

/// What a block adds up to by its DC value alone, which counts at least as it is.
pub open spec fn dc_weight(d: Seq<u8>, q: int, dc: int) -> int {
    let step = step_at(d, q, 0);
    size_of(dc) * if step == 0 {
        1
    } else {
        step
    }
}

/// Which component a block of a scan belongs to, and which tables it is coded with.
#[derive(Clone, Copy)]
pub struct Part {
    /// The component.
    pub comp: usize,
    /// The Huffman tables for DC and AC values, and the quantization table.
    pub dc: usize,
    pub ac: usize,
    pub q: usize,
}

/// The DC value of a whole block after `dc`, and where the block ends.
pub open spec fn block_after(d: Seq<u8>, part: Part, b: Bits, pos: int, dc: int) -> Option<
    (int, int),
> {
    match dc_after(d, part.dc as int, b, pos, dc) {
        None => None,
        Some((v, p)) => {
            let sum = dc_weight(d, part.q as int, v);
            if sum > BLOCK_LIMIT {
                None
            } else {
                match ac_end(d, part.ac as int, part.q as int, b, p, 1, sum) {
                    None => None,
                    Some(e) => Some((v, e)),
                }
            }
        },
    }
}

/// Whether the blocks from the `k`th to the `n`th follow at `pos`, in the order of the
/// scan's parts, after the DC values `dc` of the components.
pub open spec fn blocks_follow(
    d: Seq<u8>,
    parts: Seq<Part>,
    b: Bits,
    k: nat,
    n: nat,
    pos: int,
    dc: Seq<i32>,
) -> bool
    decreases n - k,
{
    if k >= n {
        true
    } else {
        let part = parts[k as int % parts.len() as int];
        match block_after(d, part, b, pos, dc[part.comp as int] as int) {
            None => false,
            Some((v, p)) => blocks_follow(
                d,
                parts,
                b,
                k + 1,
                n,
                p,
                dc.update(part.comp as int, v as i32),
            ),
        }
    }
}

impl BitRun {
    /// Short enough for positions to be counted.
    pub open spec fn wf(&self) -> bool {
        self.bytes@.len() <= FILE_LIMIT
    }

    /// Whether `n` more bits come at `pos`.
    pub fn has(&self, pos: u64, n: u64) -> (b: bool)
        requires
            self.wf(),
            pos <= ENDLESS,
            n <= 16,
        ensures
            b == has_bits(self@, pos as int, n as int),
            b ==> pos + n <= ENDLESS,
    {
        pos + n <= 8 * self.bytes.len() as u64 || (self.endless && pos + n <= ENDLESS)
    }

    /// The bit at `pos`.
    pub fn bit(&self, pos: u64) -> (v: u32)
        requires
            self.wf(),
        ensures
            v == bit_at(self@, pos as int),
            v <= 1,
    {
        if pos / 8 < self.bytes.len() as u64 && (self.bytes[(pos / 8) as usize] >> ((7 - pos % 8)
            as u8)) & 1u8 == 1u8 {
            1
        } else {
            0
        }
    }

    /// The number in the `n` bits at `pos`.
    pub fn number(&self, pos: u64, n: u8) -> (x: u32)
        requires
            self.wf(),
            pos <= ENDLESS,
            n <= 16,
        ensures
            x == number_at(self@, pos as int, n as nat),
            x < pow2(n as nat),
    {
        let mut x: u32 = 0;
        proof {
            lemma2_to64();
        }
        for i in 0..n
            invariant
                self.wf(),
                pos <= ENDLESS,
                n <= 16,
                x == number_at(self@, pos as int, i as nat),
                x < pow2(i as nat),
        {
            proof {
                lemma_pow2_step(i as nat);
            }
            x = 2 * x + self.bit(pos + i as u64);
        }
        x
    }

    /// The value that the `n` extra bits at `pos` stand for.
    pub fn extra(&self, pos: u64, n: u8) -> (v: i32)
        requires
            self.wf(),
            pos <= ENDLESS,
            n <= 15,
        ensures
            v == extended(number_at(self@, pos as int, n as nat), n as nat),
            -0x8000 < v < 0x8000,
    {
        let x: i32 = self.number(pos, n) as i32;
        if n == 0 {
            proof {
                lemma2_to64();
            }
            return x;
        }
        proof {
            lemma_pow2_step((n - 1) as nat);
            lemma2_to64();
            if n < 15 {
                lemma_pow2_strictly_increases(n as nat, 15);
            }
        }
        let half: i32 = power(n - 1) as i32;
        if x < half {
            x - 2 * half + 1
        } else {
            x
        }
    }

    /// The symbol that starts at `from`, and where it ends, by the Huffman table at `t`.
    pub fn symbol(&self, d: &[u8], t: usize, from: u64) -> (r: Option<(u8, u64)>)
        requires
            self.wf(),
            from <= ENDLESS,
            t <= FILE_LIMIT + 416,
        ensures
            r is Some <==> symbol_at(d@, t as int, self@, from as int) is Some,
            r matches Some((s, p)) ==> symbol_at(d@, t as int, self@, from as int) == Some(
                (s, p as int),
            ) && p <= ENDLESS,
    {
        let mut pos: u64 = from;
        let mut code: u32 = 0;
        let mut first: u32 = 0;
        let mut index: usize = 0;
        proof {
            lemma2_to64();
        }
        for len in 0..16usize
            invariant
                self.wf(),
                t <= FILE_LIMIT + 416,
                pos <= ENDLESS,
                code < pow2(len as nat),
                first <= 2 * (0x1_0000 + 255),
                index <= 255 * len,
                symbol_at(d@, t as int, self@, from as int) == symbol_from(
                    d@,
                    t as int,
                    self@,
                    pos as int,
                    len as nat,
                    code as int,
                    first as int,
                    index as int,
                ),
        {
            if !self.has(pos, 1) {
                return None;
            }
            proof {
                lemma_pow2_step(len as nat);
            }
            let c: u32 = 2 * code + self.bit(pos);
            let n: u32 = get_byte(d, t + 1 + len) as u32;
            if c < first {
                return None;
            }
            if c - first < n {
                return Some((get_byte(d, t + 17 + index + (c - first) as usize), pos + 1));
            }
            pos = pos + 1;
            code = c;
            first = 2 * (first + n);
            index = index + n as usize;
        }
        None
    }
}

proof fn lemma_pow2_step(n: nat)
    requires
        n <= 15,
    ensures
        pow2(n + 1) == 2 * pow2(n),
        1 <= pow2(n),
        pow2(n + 1) <= 0x1_0000,
{
    lemma2_to64();
    lemma_pow2_unfold(n + 1);
    if n < 15 {
        lemma_pow2_strictly_increases(n + 1, 16);
    }
    if n > 0 {
        lemma_pow2_strictly_increases(0, n);
    }
}

/// A small power of two is positive, and fits into 16 bits.
pub proof fn lemma_small_power(n: nat)
    requires
        n <= 15,
    ensures
        1 <= pow2(n) <= 0x8000,
{
    lemma_pow2_step(n);
    lemma2_to64();
    if n < 15 {
        lemma_pow2_strictly_increases(n, 15);
    }
}

/// A power of two.
pub fn power(n: u8) -> (p: u32)
    requires
        n <= 15,
    ensures
        p == pow2(n as nat),
        p <= 0x8000,
{
    let mut p: u32 = 1;
    proof {
        lemma2_to64();
    }
    for i in 0..n
        invariant
            n <= 15,
            p == pow2(i as nat),
            p <= 0x8000,
    {
        proof {
            lemma_pow2_step(i as nat);
            lemma2_to64();
            if i < 14 {
                lemma_pow2_strictly_increases((i + 1) as nat, 15);
            }
        }
        p = 2 * p;
    }
    p
}

/// Takes the data bytes from `p` up to the next marker or to the end of the file.
pub fn read_data(d: &[u8], p: usize) -> (v: Vec<u8>)
    requires
        d@.len() <= FILE_LIMIT,
    ensures
        v@ == data_bytes(d@, p as int),
        v@.len() <= d@.len(),
{
    let mut v: Vec<u8> = Vec::new();
    let mut i: usize = p;
    assert(v@ + data_bytes(d@, p as int) =~= data_bytes(d@, p as int));
    while i < d.len()
        invariant
            d@.len() <= FILE_LIMIT,
            v@ + data_bytes(d@, i as int) == data_bytes(d@, p as int),
            v@.len() <= i,
            v@.len() <= d@.len(),
        decreases usize::MAX - i,
    {
        let ghost was = v@;
        let byte: u8 = d[i];
        let mut q: usize = i + 1;
        if byte == 0xFF {
            while q < d.len() && d[q] == 0xFF
                invariant
                    i < q <= d@.len() <= FILE_LIMIT,
                    past_fill(d@, i + 1) == past_fill(d@, q as int),
                decreases d@.len() - q,
            {
                q = q + 1;
            }
            if q < d.len() && d[q] != 0 {
                assert(v@ =~= data_bytes(d@, p as int));
                return v;
            }
            q = q + 1;
        }
        v.push(byte);
        assert(v@ =~= was + seq![byte]);
        assert(was + (seq![byte] + data_bytes(d@, q as int)) =~= v@ + data_bytes(d@, q as int));
        assert(was + seq![byte] + Seq::<u8>::empty() =~= was + seq![byte]);
        i = q;
    }
    assert(v@ =~= data_bytes(d@, p as int));
    v
}

/// A number without its sign.
pub fn unsigned(v: i32) -> (r: u32)
    requires
        -0x1_0000 <= v <= 0x1_0000,
    ensures
        r == size_of(v as int),
{
    if v < 0 {
        (-v) as u32
    } else {
        v as u32
    }
}

/// The `k`th step of the quantization table at `q`.
pub fn get_step(d: &[u8], q: usize, k: usize) -> (v: u32)
    requires
        q <= FILE_LIMIT,
        k < 64,
    ensures
        v == step_at(d@, q as int, k as int),
        v <= 0xFFFF,
{
    if get_byte(d, q) / 16 == 0 {
        get_byte(d, q + 1 + k) as u32
    } else {
        256 * get_byte(d, q + 1 + 2 * k) as u32 + get_byte(d, q + 2 + 2 * k) as u32
    }
}

/// A product of bounded factors.
pub proof fn lemma_product(a: int, b: int, x: int, y: int)
    requires
        0 <= a <= x,
        0 <= b <= y,
    ensures
        0 <= a * b <= x * y,
{
    assert(0 <= a * b <= x * y) by (nonlinear_arith)
        requires
            0 <= a <= x,
            0 <= b <= y,
    ;
}

fn skip_ac(d: &[u8], t: usize, q: usize, b: &BitRun, from: u64, start: u64) -> (r: Option<u64>)
    requires
        b.wf(),
        from <= ENDLESS,
        t <= FILE_LIMIT + 416,
        q <= FILE_LIMIT,
        start <= BLOCK_LIMIT,
    ensures
        r is Some <==> ac_end(d@, t as int, q as int, b@, from as int, 1, start as int) is Some,
        r matches Some(p) ==> ac_end(d@, t as int, q as int, b@, from as int, 1, start as int)
            == Some(p as int) && p <= ENDLESS,
{
    let mut pos: u64 = from;
    let mut k: usize = 1;
    let mut sum: u64 = start;
    while k < 64
        invariant
            b.wf(),
            pos <= ENDLESS,
            t <= FILE_LIMIT + 416,
            q <= FILE_LIMIT,
            sum <= BLOCK_LIMIT,
            k < 80,
            ac_end(d@, t as int, q as int, b@, from as int, 1, start as int) == ac_end(
                d@,
                t as int,
                q as int,
                b@,
                pos as int,
                k as int,
                sum as int,
            ),
        decreases 80 - k,
    {
        let (rs, p) = match b.symbol(d, t, pos) {
            Some(x) => x,
            None => {
                return None;
            },
        };
        let r: usize = (rs / 16) as usize;
        let s: u8 = rs % 16;
        if s == 0 {
            if r != 15 {
                return Some(p);
            }
            pos = p;
            k = k + 16;
        } else {
            if k + r > 63 || !b.has(p, s as u64) {
                return None;
            }
            let size: u32 = unsigned(b.extra(p, s));
            let step: u32 = get_step(d, q, k + r);
            proof {
                lemma_product(size as int, step as int, 0x8000, 0xFFFF);
            }
            let grown: u64 = sum + size as u64 * step as u64;
            if grown > BLOCK_LIMIT {
                return None;
            }
            pos = p + s as u64;
            k = k + r + 1;
            sum = grown;
        }
    }
    Some(pos)
}

/// The DC value that follows `dc`, and where it ends.
pub fn next_dc(d: &[u8], t: usize, b: &BitRun, pos: u64, dc: i32) -> (r: Option<(i32, u64)>)
    requires
        b.wf(),
        pos <= ENDLESS,
        t <= FILE_LIMIT + 416,
        -0x8000 <= dc <= 0x8000,
    ensures
        r is Some <==> dc_after(d@, t as int, b@, pos as int, dc as int) is Some,
        r matches Some((v, p)) ==> dc_after(d@, t as int, b@, pos as int, dc as int) == Some(
            (v as int, p as int),
        ) && p <= ENDLESS && -0x1_0000 <= v <= 0x1_0000,
{
    match b.symbol(d, t, pos) {
        None => None,
        Some((s, p)) => {
            if s > 15 || !b.has(p, s as u64) {
                None
            } else {
                Some((dc + b.extra(p, s), p + s as u64))
            }
        },
    }
}

/// Positions of tables that can be counted from.
pub open spec fn part_fits(part: Part) -> bool {
    part.comp < 4 && part.dc <= FILE_LIMIT + 416 && part.ac <= FILE_LIMIT + 416 && part.q
        <= FILE_LIMIT
}

fn skip_block(d: &[u8], part: &Part, b: &BitRun, pos: u64, dc: i32) -> (r: Option<(i32, u64)>)
    requires
        b.wf(),
        pos <= ENDLESS,
        part_fits(*part),
        -0x8000 <= dc <= 0x8000,
    ensures
        r is Some <==> block_after(d@, *part, b@, pos as int, dc as int) is Some,
        r matches Some((v, p)) ==> block_after(d@, *part, b@, pos as int, dc as int) == Some(
            (v as int, p as int),
        ) && p <= ENDLESS && -0x8000 <= v <= 0x8000,
{
    let (v, p) = match next_dc(d, part.dc, b, pos, dc) {
        Some(x) => x,
        None => {
            return None;
        },
    };
    let size: u32 = unsigned(v);
    let step: u32 = get_step(d, part.q, 0);
    let times: u32 = if step == 0 {
        1
    } else {
        step
    };
    proof {
        lemma_product(size as int, times as int, 0x1_0000, 0xFFFF);
        lemma_product(size as int, 1, size as int, times as int);
    }
    let sum: u64 = size as u64 * times as u64;
    if sum > BLOCK_LIMIT {
        return None;
    }
    match skip_ac(d, part.ac, part.q, b, p, sum) {
        Some(e) => Some((v, e)),
        None => None,
    }
}

/// Whether `n` blocks follow at the start of the bits, in the order of the scan's parts.
pub fn has_blocks(d: &[u8], parts: &Vec<Part>, b: &BitRun, n: usize) -> (r: bool)
    requires
        b.wf(),
        parts@.len() > 0,
        forall|i: int| 0 <= i < parts@.len() ==> part_fits(#[trigger] parts@[i]),
    ensures
        r == blocks_follow(d@, parts@, b@, 0, n as nat, 0, seq![0i32, 0, 0, 0]),
{
    let mut dc: Vec<i32> = vec![0, 0, 0, 0];
    assert(dc@ =~= seq![0i32, 0, 0, 0]);
    let mut pos: u64 = 0;
    let mut k: usize = 0;
    while k < n
        invariant
            b.wf(),
            parts@.len() > 0,
            forall|i: int| 0 <= i < parts@.len() ==> part_fits(#[trigger] parts@[i]),
            pos <= ENDLESS,
            k <= n,
            dc@.len() == 4,
            forall|i: int| 0 <= i < 4 ==> -0x8000 <= #[trigger] dc@[i] <= 0x8000,
            blocks_follow(d@, parts@, b@, 0, n as nat, 0, seq![0i32, 0, 0, 0]) == blocks_follow(
                d@,
                parts@,
                b@,
                k as nat,
                n as nat,
                pos as int,
                dc@,
            ),
        decreases n - k,
    {
        let part = &parts[k % parts.len()];
        match skip_block(d, part, b, pos, dc[part.comp]) {
            None => {
                return false;
            },
            Some((v, p)) => {
                dc.set(part.comp, v);
                pos = p;
            },
        }
        k = k + 1;
    }
    true
}

/// Data as it stands in a file: a zero is stuffed behind every 0xFF.
pub open spec fn stuffed(b: Seq<u8>) -> Seq<u8>
    decreases b.len(),
{
    if b.len() == 0 {
        Seq::empty()
    } else if b[0] == 0xFF {
        seq![0xFFu8, 0u8] + stuffed(b.skip(1))
    } else {
        seq![b[0]] + stuffed(b.skip(1))
    }
}

/// The data bytes of a scan are those that were stuffed into the file, whatever comes
/// before them, and whatever marker ends them.
pub proof fn stuffing_is_undone(before: Seq<u8>, b: Seq<u8>, marker: u8, after: Seq<u8>)
    requires
        marker != 0,
        marker != 0xFF,
    ensures
        data_bytes(before + stuffed(b) + seq![0xFFu8, marker] + after, before.len() as int) == b,
    decreases b.len(),
{
    let file = before + stuffed(b) + seq![0xFFu8, marker] + after;
    let p = before.len() as int;
    if b.len() == 0 {
        assert(file[p] == 0xFF && file[p + 1] == marker);
        assert(past_fill(file, p + 1) == p + 1);
        assert(data_bytes(file, p) =~= b);
    } else {
        let rest = b.skip(1);
        let head = if b[0] == 0xFF {
            seq![0xFFu8, 0u8]
        } else {
            seq![b[0]]
        };
        let next = before + head;
        stuffing_is_undone(next, rest, marker, after);
        assert(file =~= next + stuffed(rest) + seq![0xFFu8, marker] + after);
        assert(file[p] == b[0]);
        if b[0] == 0xFF {
            assert(file[p + 1] == 0);
            assert(past_fill(file, p + 1) == p + 1);
        }
        assert(data_bytes(file, p) =~= seq![b[0]] + rest);
        assert(seq![b[0]] + rest =~= b);
    }
}

/// Bits come byte by byte, the highest first: eight of them are the byte again.
pub proof fn eight_bits_are_a_byte(b: Bits, i: int)
    requires
        0 <= i < b.bytes.len(),
    ensures
        number_at(b, 8 * i, 8) == b.bytes[i],
        has_bits(b, 8 * i, 8),
{
    reveal_with_fuel(number_at, 9);
    let v = b.bytes[i];
    let bit = |k: int|
        if (v >> ((7 - k) as u8)) & 1u8 == 1u8 {
            1int
        } else {
            0
        };
    assert forall|k: int| 0 <= k < 8 implies #[trigger] bit_at(b, 8 * i + k) == bit(k) by {
        assert((8 * i + k) / 8 == i && (8 * i + k) % 8 == k);
    }
    assert(bit_at(b, 8 * i + 0) == bit(0) && bit_at(b, 8 * i + 1) == bit(1) && bit_at(b, 8 * i + 2)
        == bit(2) && bit_at(b, 8 * i + 3) == bit(3) && bit_at(b, 8 * i + 4) == bit(4) && bit_at(
        b,
        8 * i + 5,
    ) == bit(5) && bit_at(b, 8 * i + 6) == bit(6) && bit_at(b, 8 * i + 7) == bit(7));
    assert(v == 128 * ((v >> 7u8) & 1) + 64 * ((v >> 6u8) & 1) + 32 * ((v >> 5u8) & 1) + 16 * ((v
        >> 4u8) & 1) + 8 * ((v >> 3u8) & 1) + 4 * ((v >> 2u8) & 1) + 2 * ((v >> 1u8) & 1) + ((v
        >> 0u8) & 1) && ((v >> 7u8) & 1) <= 1 && ((v >> 6u8) & 1) <= 1 && ((v >> 5u8) & 1) <= 1
        && ((v >> 4u8) & 1) <= 1 && ((v >> 3u8) & 1) <= 1 && ((v >> 2u8) & 1) <= 1 && ((v >> 1u8)
        & 1) <= 1 && ((v >> 0u8) & 1) <= 1) by (bit_vector);
}

/// A number in some bits is the one in the first of them, doubled for every further bit,
/// and the one in those.
pub proof fn numbers_are_read_bit_by_bit(b: Bits, pos: int, n: nat, m: nat)
    ensures
        number_at(b, pos, n + m) == number_at(b, pos, n) * pow2(m) + number_at(b, pos + n, m),
        0 <= number_at(b, pos, n) < pow2(n),
    decreases m, n,
{
    lemma2_to64();
    if m > 0 {
        numbers_are_read_bit_by_bit(b, pos, n, (m - 1) as nat);
        lemma_pow2_unfold(m);
        let (x, y) = (number_at(b, pos, n), pow2((m - 1) as nat));
        assert(2 * (x * y) == x * (2 * y)) by (nonlinear_arith);
        assert(pos + (n + m) - 1 == (pos + n) + m - 1);
        assert((n + m - 1) as nat == n + (m - 1) as nat);
    } else if n > 0 {
        numbers_are_read_bit_by_bit(b, pos, (n - 1) as nat, 0);
        lemma_pow2_unfold(n);
    }
}

/// Extra bits stand for the numbers of their size: every number whose size needs `n` bits
/// is read back from its code, which is the number itself, or for a negative one the
/// number less one, cut to `n` bits.
pub proof fn extra_bits_stand_for_values(v: int, n: nat)
    requires
        n > 0,
        pow2((n - 1) as nat) <= size_of(v) < pow2(n),
    ensures
        v > 0 ==> extended(v, n) == v,
        v < 0 ==> extended(v - 1 + pow2(n), n) == v,
        extended(0, 0) == 0,
        size_of(v) == v || size_of(v) == -v,
        size_of(v) >= 0,
{
    lemma_pow2_unfold(n);
}

/// The first code of `len` bits of the table at `t`, and how many codes are shorter.
pub open spec fn first_code(d: Seq<u8>, t: int, len: nat) -> int
    decreases len,
{
    if len <= 1 {
        0
    } else {
        2 * (first_code(d, t, (len - 1) as nat) + byte_at(d, t + len - 1))
    }
}

pub open spec fn shorter_codes(d: Seq<u8>, t: int, len: nat) -> int
    decreases len,
{
    if len <= 1 {
        0
    } else {
        shorter_codes(d, t, (len - 1) as nat) + byte_at(d, t + len - 1)
    }
}

proof fn lemma_symbol_goes_on(d: Seq<u8>, t: int, b: Bits, pos: int, len: nat, k: int, l: nat)
    requires
        1 <= len <= 16,
        l < len,
        has_bits(b, pos, len as int),
        0 <= k < byte_at(d, t + len),
        number_at(b, pos, len) == first_code(d, t, len) + k,
    ensures
        symbol_at(d, t, b, pos) == symbol_from(
            d,
            t,
            b,
            pos + l,
            l,
            number_at(b, pos, l),
            first_code(d, t, l + 1),
            shorter_codes(d, t, l + 1),
        ),
        number_at(b, pos, l + 1) >= first_code(d, t, l + 1),
        l + 1 < len ==> number_at(b, pos, l + 1) >= first_code(d, t, l + 1) + byte_at(
            d,
            t + l + 1,
        ),
    decreases l,
{
    lemma_prefix(d, t, b, pos, len, k, l + 1);
    if l > 0 {
        lemma_symbol_goes_on(d, t, b, pos, len, k, (l - 1) as nat);
    }
}

// What the first bits of a code are at least.
proof fn lemma_prefix(d: Seq<u8>, t: int, b: Bits, pos: int, len: nat, k: int, l: nat)
    requires
        1 <= l <= len <= 16,
        0 <= k,
        number_at(b, pos, len) == first_code(d, t, len) + k,
    ensures
        number_at(b, pos, l) >= first_code(d, t, l),
        l < len ==> number_at(b, pos, l) >= first_code(d, t, l) + byte_at(d, t + l),
    decreases len - l,
{
    if l < len {
        lemma_prefix(d, t, b, pos, len, k, l + 1);
        assert(number_at(b, pos, l + 1) == 2 * number_at(b, pos, l) + bit_at(b, pos + l));
        assert(first_code(d, t, l + 1) == 2 * (first_code(d, t, l) + byte_at(d, t + l)));
    }
}

/// Codes are handed out in order: those of one bit count up from zero, and those of every
/// further length go on behind the last one, with a zero added. The `k`th code of a length
/// stands for the `k`th symbol that the table lists for that length, and takes as many
/// bits.
pub proof fn codes_are_handed_out_in_order(
    d: Seq<u8>,
    t: int,
    b: Bits,
    pos: int,
    len: nat,
    k: int,
)
    requires
        1 <= len <= 16,
        has_bits(b, pos, len as int),
        0 <= k < byte_at(d, t + len),
        number_at(b, pos, len) == first_code(d, t, len) + k,
    ensures
        symbol_at(d, t, b, pos) == Some(
            (byte_at(d, t + 17 + shorter_codes(d, t, len) + k), pos + len),
        ),
{
    let l = (len - 1) as nat;
    lemma_symbol_goes_on(d, t, b, pos, len, k, l);
    assert(number_at(b, pos, len) == 2 * number_at(b, pos, l) + bit_at(b, pos + l));
}

/// A quantization table lists 64 steps behind its first byte: bytes if the upper half of
/// that is zero, and else pairs of bytes, the higher one first.
pub proof fn steps_are_listed(d: Seq<u8>, q: int, k: int)
    requires
        0 <= q,
        0 <= k < 64,
        q + 128 < d.len(),
    ensures
        d[q] < 16 ==> step_at(d, q, k) == d[q + 1 + k],
        d[q] >= 16 ==> step_at(d, q, k) == 0x100 * d[q + 1 + 2 * k] + d[q + 2 + 2 * k],
{
}

proof fn lemma_symbol_within(
    d: Seq<u8>,
    t: int,
    b: Bits,
    pos: int,
    len: nat,
    code: int,
    first: int,
    index: int,
)
    requires
        !b.endless,
    ensures
        symbol_from(d, t, b, pos, len, code, first, index) matches Some((s, p)) ==> pos < p <= 8
            * b.bytes.len(),
    decreases 16 - len,
{
    if len < 16 && has_bits(b, pos, 1) {
        let c = 2 * code + bit_at(b, pos);
        let n = byte_at(d, t + 1 + len) as int;
        lemma_symbol_within(d, t, b, pos + 1, len + 1, c, 2 * (first + n), index + n);
    }
}

proof fn lemma_ac_within(d: Seq<u8>, t: int, q: int, b: Bits, pos: int, k: int, sum: int)
    requires
        !b.endless,
        pos <= 8 * b.bytes.len(),
    ensures
        ac_end(d, t, q, b, pos, k, sum) matches Some(e) ==> pos <= e <= 8 * b.bytes.len(),
    decreases 80 - k,
{
    if k < 64 {
        lemma_symbol_within(d, t, b, pos, 0, 0, 0, 0);
        if let Some((rs, p)) = symbol_at(d, t, b, pos) {
            let (r, s) = (rs as int / 16, rs as int % 16);
            if s == 0 {
                lemma_ac_within(d, t, q, b, p, k + 16, sum);
            } else if k + r <= 63 && has_bits(b, p, s) {
                let grown = sum + extra_size(b, p, s as nat) * step_at(d, q, k + r);
                lemma_ac_within(d, t, q, b, p + s, k + r + 1, grown);
            }
        }
    }
}

/// A block that is let through has all its bits in front of the next marker, takes at least
/// one of them, and starts with a DC value that stays small even times its step.
pub proof fn blocks_stay_in_front_of_the_marker(d: Seq<u8>, part: Part, b: Bits, pos: int, dc: int)
    requires
        !b.endless,
        0 <= pos,
    ensures
        block_after(d, part, b, pos, dc) matches Some((v, e)) ==> {
            &&& pos < e <= 8 * b.bytes.len()
            &&& step_at(d, part.q as int, 0) > 0 ==> size_of(v) * step_at(d, part.q as int, 0)
                <= 28_000
        },
{
    lemma_symbol_within(d, part.dc as int, b, pos, 0, 0, 0, 0);
    if let Some((v, p)) = dc_after(d, part.dc as int, b, pos, dc) {
        lemma_ac_within(
            d,
            part.ac as int,
            part.q as int,
            b,
            p,
            1,
            dc_weight(d, part.q as int, v),
        );
    }
}

} // verus!
