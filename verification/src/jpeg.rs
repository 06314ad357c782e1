//! The segments of a JPEG file, and whether the decoder copes with what they say.
//!
//! The decoder, `zune-jpeg`, reports most damage as an error. But it panics on some
//! headers, in a build that checks its arithmetic and its assertions also on some damaged
//! scans, and it never returns from some progressive files. The rules here admit the
//! files on which none of that can happen. On a file that they turn away, the decoder
//! may still give a picture, or an error.

use crate::bytes;
use crate::bytes::u16_be;
use crate::progressive;
use crate::progressive::holds_progressive;
use crate::scan;
use crate::scan::{has_blocks, read_data, BitRun, Part};
use vstd::prelude::*;

verus! {

/// Second bytes of the markers that matter; the first byte is always 0xFF.
pub const SOF0: u8 = 0xC0;

pub const SOF1: u8 = 0xC1;

pub const SOF2: u8 = 0xC2;

pub const DHT: u8 = 0xC4;

pub const DAC: u8 = 0xCC;

pub const RST0: u8 = 0xD0;

pub const RST7: u8 = 0xD7;

pub const EOI: u8 = 0xD9;

pub const SOS: u8 = 0xDA;

pub const DQT: u8 = 0xDB;

pub const DRI: u8 = 0xDD;

pub const APP0: u8 = 0xE0;

pub const APP1: u8 = 0xE1;

pub const APP2: u8 = 0xE2;

pub const APP13: u8 = 0xED;

pub const APP14: u8 = 0xEE;

pub const COM: u8 = 0xFE;

/// The decoder's limit on width and height.
pub const SIDE_LIMIT: usize = 16384;

/// What an APP0 segment of a motion JPEG starts with.
pub const MJPEG_TAG: [u8; 5] = [0x41, 0x56, 0x49, 0x31, 0];

/// Whether a marker stands at `i`: 0xFF, and behind it neither a stuffed zero nor a
/// fill byte.
pub open spec fn marker_at(d: Seq<u8>, i: int) -> bool {
    0 <= i && i + 1 < d.len() && d[i] == 0xFF && d[i + 1] != 0 && d[i + 1] != 0xFF
}

/// The first marker from `off` on.
pub open spec fn next_marker(d: Seq<u8>, off: int) -> Option<int>
    decreases d.len() - off,
{
    if off + 1 >= d.len() {
        None
    } else if marker_at(d, off) {
        Some(off)
    } else {
        next_marker(d, off + 1)
    }
}

/// The length that the segment of the marker at `i` gives itself.
pub open spec fn segment_len(d: Seq<u8>, i: int) -> int {
    bytes::read16_be(d, i + 2)
}

/// Where the segment of the marker at `i` ends, at the latest with the file. The
/// decoder takes one byte too many of an APP0 segment of length six.
pub open spec fn segment_end(d: Seq<u8>, i: int) -> int {
    let end = if d[i + 1] == APP0 && segment_len(d, i) == 6 {
        i + 9
    } else {
        i + 2 + segment_len(d, i)
    };
    if end < d.len() {
        end
    } else {
        d.len() as int
    }
}

/// Whether the headers stop at the marker at `i`: it starts a scan, or its segment has
/// no length, or one that does not even count itself.
pub open spec fn stops_headers(d: Seq<u8>, i: int) -> bool {
    d[i + 1] == SOS || i + 3 >= d.len() || segment_len(d, i) < 2
}

/// Where the markers of the headers stand, from `off` on; the last one is that of the
/// first scan.
pub open spec fn headers(d: Seq<u8>, off: int) -> Seq<usize>
    decreases d.len() - off,
{
    match next_marker(d, off) {
        Some(i) => if i < off || stops_headers(d, i) {
            seq![i as usize]
        } else {
            seq![i as usize] + headers(d, segment_end(d, i))
        },
        None => Seq::empty(),
    }
}

/// Whether a marker is one of those that the decoder knows: from the restart markers to
/// DRI it knows all of them.
pub open spec fn is_known(m: u8) -> bool {
    m == SOF0 || m == SOF1 || m == SOF2 || m == DHT || m == DAC || RST0 <= m <= DRI || m == APP0 || m
        == APP1 || m == APP2 || m == APP13 || m == APP14 || m == COM
}

/// Whether a marker is a restart marker.
pub open spec fn is_restart(m: u8) -> bool {
    RST0 <= m <= RST7
}

/// Whether a marker starts a frame header.
pub open spec fn is_frame(m: u8) -> bool {
    m == SOF0 || m == SOF1 || m == SOF2
}

/// The first frame header from the `k`th header on.
pub open spec fn frame_from(d: Seq<u8>, h: Seq<usize>, k: int) -> Option<usize>
    decreases h.len() - k,
{
    if k >= h.len() {
        None
    } else if is_frame(d[h[k] + 1]) {
        Some(h[k])
    } else {
        frame_from(d, h, k + 1)
    }
}

/// How many components a frame header announces.
pub open spec fn components(d: Seq<u8>, i: int) -> u8 {
    d[i + 9]
}

/// Height and width that a frame header announces.
pub open spec fn height(d: Seq<u8>, i: int) -> int {
    bytes::read16_be(d, i + 5)
}

pub open spec fn width(d: Seq<u8>, i: int) -> int {
    bytes::read16_be(d, i + 7)
}

/// The sampling factors of a component: the horizontal one in the upper four bits, the
/// vertical one in the lower.
pub open spec fn sampling(d: Seq<u8>, i: int, c: int) -> u8 {
    d[i + 11 + 3 * c]
}

/// Whether a number is a sampling factor that the decoder copes with.
pub open spec fn is_factor(f: int) -> bool {
    f == 1 || f == 2 || f == 4
}

/// Whether the decoder copes with a frame's sampling: the first component has the
/// largest factors; where one of these is four, the others have none, and a row of
/// pixels fills the decoder's buffer. The decoder's upsampling asserts on row lengths
/// that others need not meet. The factors of a single component do not matter.
pub open spec fn sampling_fits(d: Seq<u8>, i: int) -> bool {
    let (x, y) = (sampling(d, i, 0) as int / 16, sampling(d, i, 0) as int % 16);
    &&& is_factor(x) && is_factor(y)
    &&& components(d, i) == 1 || (x < 4 && y < 4) || width(d, i) >= 16
    &&& forall|c: int|
        1 <= c < components(d, i) ==> {
            let s = #[trigger] sampling(d, i, c);
            s == 0x11 || (x < 4 && y < 4 && 1 <= s / 16 <= x && 1 <= s % 16 <= y)
        }
}

/// Whether a frame header is whole, and of a kind that the decoder copes with.
pub open spec fn frame_fits(d: Seq<u8>, i: int) -> bool {
    &&& i + 10 <= d.len()
    &&& components(d, i) == 1 || components(d, i) == 3 || components(d, i) == 4
    &&& i + 10 + 3 * components(d, i) <= d.len()
    &&& 0 < width(d, i) <= SIDE_LIMIT
    &&& 0 < height(d, i) <= SIDE_LIMIT
    &&& sampling_fits(d, i)
}

/// The sampling factors that count: those of a single component do not.
pub open spec fn across(d: Seq<u8>, i: int, c: int) -> int {
    if components(d, i) == 1 {
        1
    } else {
        sampling(d, i, c) as int / 16
    }
}

pub open spec fn down(d: Seq<u8>, i: int, c: int) -> int {
    if components(d, i) == 1 {
        1
    } else {
        sampling(d, i, c) as int % 16
    }
}

/// How many units of coded blocks cover a side of the picture.
pub open spec fn units(side: int, factor: int) -> int {
    (side + 8 * factor - 1) / (8 * factor)
}

/// How many units of coded blocks a frame consists of.
pub open spec fn frame_units(d: Seq<u8>, i: int) -> int {
    units(width(d, i), across(d, i, 0)) * units(height(d, i), down(d, i, 0))
}

/// The component with that name, from the `c`th on.
pub open spec fn component_from(d: Seq<u8>, i: int, id: u8, c: int) -> Option<int>
    decreases components(d, i) - c,
{
    if c >= components(d, i) {
        None
    } else if d[i + 10 + 3 * c] == id {
        Some(c)
    } else {
        component_from(d, i, id, c + 1)
    }
}

/// How many codes of up to `n` bits a Huffman table lists.
pub open spec fn code_count(d: Seq<u8>, at: int, n: nat) -> nat
    decreases n,
{
    if n == 0 {
        0
    } else {
        code_count(d, at, (n - 1) as nat) + d[at + n] as nat
    }
}

/// The last Huffman table for destination `id` between `at` and `end` of a DHT segment,
/// or else the one that was found before.
pub open spec fn table_in(d: Seq<u8>, at: int, end: int, id: int, found: Option<usize>) -> Option<
    usize,
>
    decreases end - at,
{
    let next = at + 17 + code_count(d, at, 16);
    if next <= end {
        table_in(
            d,
            next,
            end,
            id,
            if d[at] == id {
                Some(at as usize)
            } else {
                found
            },
        )
    } else {
        found
    }
}

/// The last quantization table for destination `id` between `at` and `end` of a DQT
/// segment, or else the one that was found before.
pub open spec fn quantization_in(
    d: Seq<u8>,
    at: int,
    end: int,
    id: int,
    found: Option<usize>,
) -> Option<usize>
    decreases end - at,
{
    let next = if d[at] / 16 == 0 {
        at + 65
    } else {
        at + 129
    };
    if next <= end {
        quantization_in(
            d,
            next,
            end,
            id,
            if d[at] % 16 == id {
                Some(at as usize)
            } else {
                found
            },
        )
    } else {
        found
    }
}

/// Whether a segment marks a motion JPEG, whose usual Huffman tables may be left out.
pub open spec fn marks_motion(d: Seq<u8>, i: int) -> bool {
    i + 9 <= d.len() && d[i + 1] == APP0 && segment_len(d, i) > 5 && d.subrange(i + 4, i + 9)
        == MJPEG_TAG@
}

/// The usual Huffman table for destination `id` of a motion JPEG: it is looked up behind
/// the end of the file.
pub open spec fn usual_table(d: Seq<u8>, id: int) -> Option<usize> {
    if id == 0x00 {
        Some((d.len() + scan::USUAL_DC_0) as usize)
    } else if id == 0x01 {
        Some((d.len() + scan::USUAL_DC_1) as usize)
    } else if id == 0x10 {
        Some((d.len() + scan::USUAL_AC_0) as usize)
    } else if id == 0x11 {
        Some((d.len() + scan::USUAL_AC_1) as usize)
    } else {
        None
    }
}

/// The Huffman table for destination `id`, by the first `k` segments: 0 to 3 for DC
/// values, 16 to 19 for AC values.
pub open spec fn table_by(d: Seq<u8>, h: Seq<usize>, k: int, id: int) -> Option<usize>
    decreases k,
{
    if k <= 0 {
        None
    } else {
        let i = h[k - 1] as int;
        let found = table_by(d, h, k - 1, id);
        if d[i + 1] == DHT && i + 3 < d.len() {
            table_in(d, i + 4, segment_end(d, i), id, found)
        } else if found is None && marks_motion(d, i) {
            usual_table(d, id)
        } else {
            found
        }
    }
}

/// The quantization table for destination `id`, by the first `k` segments.
pub open spec fn quantization_by(d: Seq<u8>, h: Seq<usize>, k: int, id: int) -> Option<usize>
    decreases k,
{
    if k <= 0 {
        None
    } else {
        let i = h[k - 1] as int;
        let found = quantization_by(d, h, k - 1, id);
        if d[i + 1] == DQT && i + 3 < d.len() {
            quantization_in(d, i + 4, segment_end(d, i), id, found)
        } else {
            found
        }
    }
}

/// The restart interval, by the first `k` segments.
pub open spec fn interval_by(d: Seq<u8>, h: Seq<usize>, k: int) -> int
    decreases k,
{
    if k <= 0 {
        0
    } else {
        let i = h[k - 1] as int;
        if d[i + 1] == DRI && i + 5 < d.len() {
            bytes::read16_be(d, i + 4)
        } else {
            interval_by(d, h, k - 1)
        }
    }
}

/// Whether the scan header at `j` is whole.
pub open spec fn scan_fits(d: Seq<u8>, j: int) -> bool {
    &&& j + 4 < d.len()
    &&& 1 <= d[j + 4] <= 4
    &&& segment_len(d, j) == 6 + 2 * d[j + 4]
    &&& j + 8 + 2 * d[j + 4] <= d.len()
}

/// The tables for the `c`th component of a scan of the frame at `i`.
pub open spec fn part_of(d: Seq<u8>, h: Seq<usize>, i: int, j: int, c: int) -> Option<Part> {
    let s = d[j + 6 + 2 * c] as int;
    match component_from(d, i, d[j + 5 + 2 * c], 0) {
        None => None,
        Some(comp) => match (
            table_by(d, h, h.len() as int, s / 16),
            table_by(d, h, h.len() as int, 16 + s % 16),
            quantization_by(d, h, h.len() as int, d[i + 12 + 3 * comp] as int),
        ) {
            (Some(dc), Some(ac), Some(q)) => if s / 16 < 4 && s % 16 < 4 {
                Some(Part { comp: comp as usize, dc, ac, q })
            } else {
                None
            },
            _ => None,
        },
    }
}

/// The blocks of one unit of a scan, for its first `n` components, which come in the
/// frame's order, from `low` on; and the component behind the last of them.
pub open spec fn unit_parts(
    d: Seq<u8>,
    h: Seq<usize>,
    i: int,
    j: int,
    low: int,
    n: int,
) -> Option<(Seq<Part>, int)>
    decreases n,
{
    if n <= 0 {
        Some((Seq::empty(), low))
    } else {
        match (unit_parts(d, h, i, j, low, n - 1), part_of(d, h, i, j, n - 1)) {
            (Some((front, next)), Some(part)) => if next <= part.comp {
                let blocks = across(d, i, part.comp as int) * down(d, i, part.comp as int);
                Some((front + Seq::new(blocks as nat, |k: int| part), part.comp + 1))
            } else {
                None
            },
            _ => None,
        }
    }
}

/// The bits from `p` up to the next marker.
pub open spec fn bits_from(d: Seq<u8>, p: int) -> scan::Bits {
    scan::Bits { bytes: scan::data_bytes(d, p), endless: next_marker(d, p) is None }
}

/// How many units come before the next restart marker.
pub open spec fn run_of(left: int, interval: int) -> int {
    if interval == 0 || left < interval {
        left
    } else {
        interval
    }
}

/// Where the last run of `left` units starts, whose first run starts at `p`: each run
/// but the last ends in a restart marker, and the bits of each hold all its blocks.
pub open spec fn last_run(
    d: Seq<u8>,
    parts: Seq<Part>,
    p: int,
    left: int,
    interval: int,
) -> Option<int>
    decreases left,
{
    let run = run_of(left, interval);
    if left <= 0 || interval < 0 || !scan::blocks_follow(
        d,
        parts,
        bits_from(d, p),
        0,
        (run * parts.len()) as nat,
        0,
        seq![0i32, 0, 0, 0],
    ) {
        None
    } else if left == run {
        Some(p)
    } else {
        match next_marker(d, p) {
            Some(e) => if is_restart(d[e + 1]) {
                last_run(d, parts, e + 2, left - run, interval)
            } else {
                None
            },
            None => None,
        }
    }
}

/// Whether the scan at `j` of the baseline frame at `i`, and the scans that follow, hold
/// what the frame announces; at most `n` scans are looked at, and only components from
/// `low` on. Behind a scan of all components the decoder looks at no other. It miscounts
/// restarts across scans.
pub open spec fn baseline_holds(
    d: Seq<u8>,
    h: Seq<usize>,
    i: int,
    j: int,
    low: int,
    n: nat,
) -> bool
    decreases n,
{
    if n == 0 || !scan_fits(d, j) {
        false
    } else {
        let interval = interval_by(d, h, h.len() as int);
        match unit_parts(d, h, i, j, low, d[j + 4] as int) {
            None => false,
            Some((parts, next)) => match last_run(
                d,
                parts,
                j + 8 + 2 * d[j + 4],
                frame_units(d, i),
                interval,
            ) {
                None => false,
                Some(p) => d[j + 4] == components(d, i) || (interval == 0 && match next_marker(
                    d,
                    p,
                ) {
                    None => true,
                    Some(e) => if d[e + 1] == SOS {
                        baseline_holds(d, h, i, e, next, (n - 1) as nat)
                    } else {
                        is_known(d[e + 1])
                    },
                }),
            },
        }
    }
}

/// Whether an Adobe segment at `j` gives that color transform.
pub open spec fn adobe_at(d: Seq<u8>, j: int, transform: u8) -> bool {
    marker_at(d, j) && d[j + 1] == APP14 && j + 15 < d.len() && d[j + 15] == transform
}

/// Whether no color transform makes the decoder reach for components that are not there.
pub open spec fn transform_fits(d: Seq<u8>, i: int) -> bool {
    &&& components(d, i) == 1 ==> forall|j: int| !#[trigger] adobe_at(d, j, 2)
    &&& components(d, i) == 4 && d[i + 1] == SOF2 ==> forall|j: int|
        !#[trigger] adobe_at(d, j, 1)
}

/// Whether a file is one on which the decoder is known to return.
pub open spec fn decodes_safely(d: Seq<u8>) -> bool {
    let h = headers(d, 2);
    &&& d.len() <= scan::FILE_LIMIT
    &&& h.len() > 0
    &&& d[h.last() + 1] == SOS
    &&& match frame_from(d, h, 0) {
        None => false,
        Some(i) => frame_fits(d, i as int) && transform_fits(d, i as int) && if d[i + 1] == SOF2 {
            progressive::progressive_holds(d, h, i as int, h.last() as int)
        } else {
            baseline_holds(d, h, i as int, h.last() as int, 0, 4)
        },
    }
}

/// Where markers stand.
pub open spec fn all_markers(d: Seq<u8>, h: Seq<usize>) -> bool {
    forall|k: int| 0 <= k < h.len() ==> marker_at(d, #[trigger] h[k] as int)
}

fn is_marker(d: &[u8], i: usize) -> (b: bool)
    ensures
        b == marker_at(d@, i as int),
{
    i < d.len() && d.len() - i > 1 && d[i] == 0xFF && d[i + 1] != 0 && d[i + 1] != 0xFF
}

pub(crate) fn find_marker(d: &[u8], off: usize) -> (r: Option<usize>)
    ensures
        r is Some <==> next_marker(d@, off as int) is Some,
        r matches Some(i) ==> next_marker(d@, off as int) == Some(i as int) && off <= i && marker_at(
            d@,
            i as int,
        ),
{
    let mut i: usize = off;
    while i < d.len() && d.len() - i > 1
        invariant
            off <= i,
            next_marker(d@, off as int) == next_marker(d@, i as int),
        decreases d.len() - i,
    {
        if is_marker(d, i) {
            return Some(i);
        }
        i = i + 1;
    }
    None
}

pub(crate) fn end_of_segment(d: &[u8], i: usize) -> (end: usize)
    requires
        marker_at(d@, i as int),
        i + 3 < d@.len(),
    ensures
        end == segment_end(d@, i as int),
        end <= d@.len(),
{
    let left: usize = d.len() - i - 2;
    let len = u16_be(d, i + 2);
    let take: usize = if d[i + 1] == APP0 && len == 6 {
        7
    } else {
        len
    };
    if take < left {
        i + 2 + take
    } else {
        d.len()
    }
}

fn find_headers(d: &[u8]) -> (v: Vec<usize>)
    ensures
        v@ == headers(d@, 2),
        all_markers(d@, v@),
{
    let mut v: Vec<usize> = Vec::new();
    let mut off: usize = 2;
    assert(v@ + headers(d@, 2) =~= headers(d@, 2));
    loop
        invariant
            v@ + headers(d@, off as int) == headers(d@, 2),
            all_markers(d@, v@),
        decreases usize::MAX - off,
    {
        let i = match find_marker(d, off) {
            Some(i) => i,
            None => {
                assert(v@ =~= headers(d@, 2));
                return v;
            },
        };
        let ghost was = v@;
        v.push(i);
        assert(v@ =~= was + seq![i]);
        let left: usize = d.len() - i;
        if d[i + 1] == SOS || left <= 3 || u16_be(d, i + 2) < 2 {
            return v;
        }
        let end = end_of_segment(d, i);
        assert(was + (seq![i] + headers(d@, end as int)) =~= v@ + headers(d@, end as int));
        off = end;
    }
}

fn find_frame(d: &[u8], h: &Vec<usize>) -> (r: Option<usize>)
    requires
        all_markers(d@, h@),
    ensures
        r == frame_from(d@, h@, 0),
        r matches Some(i) ==> marker_at(d@, i as int),
{
    let n: usize = d.len();
    for k in 0..h.len()
        invariant
            all_markers(d@, h@),
            n == d@.len(),
            frame_from(d@, h@, 0) == frame_from(d@, h@, k as int),
    {
        let i: usize = h[k];
        assert(marker_at(d@, i as int));
        let m: u8 = d[i + 1];
        if m == SOF0 || m == SOF1 || m == SOF2 {
            return Some(i);
        }
    }
    None
}

fn fits_frame(d: &[u8], i: usize) -> (b: bool)
    requires
        marker_at(d@, i as int),
    ensures
        b == frame_fits(d@, i as int),
{
    let left: usize = d.len() - i;
    if left < 10 {
        return false;
    }
    let n: usize = d[i + 9] as usize;
    if n != 1 && n != 3 && n != 4 {
        return false;
    }
    if left < 10 + 3 * n {
        return false;
    }
    let w = u16_be(d, i + 7);
    let t = u16_be(d, i + 5);
    if w == 0 || w > SIDE_LIMIT || t == 0 || t > SIDE_LIMIT {
        return false;
    }
    let first: u8 = d[i + 11];
    assert(first == sampling(d@, i as int, 0));
    let x: u8 = first / 16;
    let y: u8 = first % 16;
    let small = x < 4 && y < 4;
    if (x != 1 && x != 2 && x != 4) || (y != 1 && y != 2 && y != 4) {
        return false;
    }
    if n != 1 && !small && w < 16 {
        return false;
    }
    let mut c: usize = 1;
    while c < n
        invariant
            n == components(d@, i as int),
            n <= 4,
            i + 10 + 3 * n <= d@.len(),
            left == d@.len() - i,
            left + i <= usize::MAX,
            x == sampling(d@, i as int, 0) / 16,
            y == sampling(d@, i as int, 0) % 16,
            small == (x < 4 && y < 4),
            1 <= c,
            forall|e: int|
                1 <= e < c ==> {
                    let s = #[trigger] sampling(d@, i as int, e);
                    s == 0x11 || (x < 4 && y < 4 && 1 <= s / 16 <= x && 1 <= s % 16 <= y)
                },
        decreases n - c,
    {
        let s = d[i + 11 + 3 * c];
        assert(s == sampling(d@, i as int, c as int));
        if s != 0x11 && (!small || s / 16 < 1 || s / 16 > x || s % 16 < 1 || s % 16 > y) {
            return false;
        }
        c = c + 1;
    }
    true
}

/// The sampling factors of a component of a whole frame.
pub(crate) fn factors(d: &[u8], i: usize, c: usize) -> (r: (usize, usize))
    requires
        frame_fits(d@, i as int),
        c < components(d@, i as int),
    ensures
        r.0 == across(d@, i as int, c as int),
        r.1 == down(d@, i as int, c as int),
        is_factor(r.0 as int),
        is_factor(r.1 as int),
{
    let left: usize = d.len() - i;
    assert(left >= 10 + 3 * components(d@, i as int));
    let s: u8 = d[i + 11 + 3 * c];
    assert(s == sampling(d@, i as int, c as int));
    if d[i + 9] == 1 {
        (1, 1)
    } else {
        ((s / 16) as usize, (s % 16) as usize)
    }
}

pub(crate) fn count_units(side: usize, factor: usize) -> (n: usize)
    requires
        0 < side <= SIDE_LIMIT,
        is_factor(factor as int),
    ensures
        n == units(side as int, factor as int),
        1 <= n <= 2048,
{
    if factor == 1 {
        (side + 7) / 8
    } else if factor == 2 {
        (side + 15) / 16
    } else {
        (side + 31) / 32
    }
}

fn count_frame_units(d: &[u8], i: usize) -> (n: usize)
    requires
        frame_fits(d@, i as int),
    ensures
        n == frame_units(d@, i as int),
        1 <= n <= 2048 * 2048,
{
    let left: usize = d.len() - i;
    assert(left >= 10);
    let (x, y) = factors(d, i, 0);
    let a = count_units(u16_be(d, i + 7), x);
    let b = count_units(u16_be(d, i + 5), y);
    assert(1 <= a * b <= 2048 * 2048) by (nonlinear_arith)
        requires
            1 <= a <= 2048,
            1 <= b <= 2048,
    ;
    a * b
}

pub(crate) fn find_component(d: &[u8], i: usize, id: u8) -> (r: Option<usize>)
    requires
        frame_fits(d@, i as int),
    ensures
        r is Some <==> component_from(d@, i as int, id, 0) is Some,
        r matches Some(c) ==> component_from(d@, i as int, id, 0) == Some(c as int) && c
            < components(d@, i as int),
{
    let left: usize = d.len() - i;
    assert(left >= 10 + 3 * components(d@, i as int));
    let n: usize = d[i + 9] as usize;
    for c in 0..n
        invariant
            n == components(d@, i as int),
            n <= 4,
            i + 10 + 3 * n <= d@.len(),
            left == d@.len() - i,
            left + i <= usize::MAX,
            component_from(d@, i as int, id, 0) == component_from(d@, i as int, id, c as int),
    {
        if d[i + 10 + 3 * c] == id {
            return Some(c);
        }
    }
    None
}

fn count_codes(d: &[u8], at: usize) -> (n: usize)
    requires
        at + 17 <= d@.len(),
    ensures
        n == code_count(d@, at as int, 16),
        n <= 16 * 255,
{
    let mut n: usize = 0;
    let len: usize = d.len();
    for k in 0..16usize
        invariant
            at + 17 <= len,
            len == d@.len(),
            n == code_count(d@, at as int, k as nat),
            n <= k * 255,
    {
        n = n + d[at + 1 + k] as usize;
    }
    n
}

fn find_table_in(d: &[u8], from: usize, end: usize, id: u8, before: Option<usize>) -> (r: Option<
    usize,
>)
    requires
        end <= d@.len(),
        before matches Some(t) ==> t <= d@.len() + 416,
    ensures
        r == table_in(d@, from as int, end as int, id as int, before),
        r matches Some(t) ==> t <= d@.len() + 416,
{
    let mut at: usize = from;
    let mut found: Option<usize> = before;
    while at < end && end - at >= 17
        invariant
            end <= d@.len(),
            found matches Some(t) ==> t <= d@.len() + 416,
            table_in(d@, from as int, end as int, id as int, before) == table_in(
                d@,
                at as int,
                end as int,
                id as int,
                found,
            ),
        decreases end - at,
    {
        let n = count_codes(d, at);
        if n > end - at - 17 {
            return found;
        }
        if d[at] == id {
            found = Some(at);
        }
        at = at + 17 + n;
    }
    found
}

fn is_motion(d: &[u8], i: usize) -> (b: bool)
    requires
        marker_at(d@, i as int),
    ensures
        b == marks_motion(d@, i as int),
{
    let left: usize = d.len() - i;
    if left < 9 || d[i + 1] != APP0 || u16_be(d, i + 2) <= 5 {
        return false;
    }
    let tagged = d[i + 4] == MJPEG_TAG[0] && d[i + 5] == MJPEG_TAG[1] && d[i + 6] == MJPEG_TAG[2]
        && d[i + 7] == MJPEG_TAG[3] && d[i + 8] == MJPEG_TAG[4];
    proof {
        let part = d@.subrange(i + 4, i + 9);
        if tagged {
            assert(part =~= MJPEG_TAG@);
        } else if part == MJPEG_TAG@ {
            assert(part[0] == d@[i + 4] && part[1] == d@[i + 5] && part[2] == d@[i + 6] && part[3]
                == d@[i + 7] && part[4] == d@[i + 8]);
        }
    }
    tagged
}

fn get_usual_table(d: &[u8], id: u8) -> (r: Option<usize>)
    requires
        d@.len() <= scan::FILE_LIMIT,
    ensures
        r == usual_table(d@, id as int),
        r matches Some(t) ==> t <= d@.len() + 416,
{
    if id == 0x00 {
        Some(d.len() + scan::USUAL_DC_0)
    } else if id == 0x01 {
        Some(d.len() + scan::USUAL_DC_1)
    } else if id == 0x10 {
        Some(d.len() + scan::USUAL_AC_0)
    } else if id == 0x11 {
        Some(d.len() + scan::USUAL_AC_1)
    } else {
        None
    }
}

pub(crate) fn find_table(d: &[u8], h: &Vec<usize>, id: u8) -> (r: Option<usize>)
    requires
        d@.len() <= scan::FILE_LIMIT,
        all_markers(d@, h@),
    ensures
        r == table_by(d@, h@, h@.len() as int, id as int),
        r matches Some(t) ==> t <= d@.len() + 416,
{
    let mut found: Option<usize> = None;
    for k in 0..h.len()
        invariant
            d@.len() <= scan::FILE_LIMIT,
            all_markers(d@, h@),
            found == table_by(d@, h@, k as int, id as int),
            found matches Some(t) ==> t <= d@.len() + 416,
    {
        let i: usize = h[k];
        assert(marker_at(d@, i as int));
        if d[i + 1] == DHT && i + 3 < d.len() {
            found = find_table_in(d, i + 4, end_of_segment(d, i), id, found);
        } else if found.is_none() && is_motion(d, i) {
            found = get_usual_table(d, id);
        }
    }
    found
}

fn find_quantization_in(
    d: &[u8],
    from: usize,
    end: usize,
    id: u8,
    before: Option<usize>,
) -> (r: Option<usize>)
    requires
        end <= d@.len() <= scan::FILE_LIMIT,
        before matches Some(t) ==> t <= d@.len(),
    ensures
        r == quantization_in(d@, from as int, end as int, id as int, before),
        r matches Some(t) ==> t <= d@.len(),
{
    let mut at: usize = from;
    let mut found: Option<usize> = before;
    while at < end
        invariant
            end <= d@.len() <= scan::FILE_LIMIT,
            found matches Some(t) ==> t <= d@.len(),
            quantization_in(d@, from as int, end as int, id as int, before) == quantization_in(
                d@,
                at as int,
                end as int,
                id as int,
                found,
            ),
        decreases usize::MAX - at,
    {
        let size: usize = if d[at] / 16 == 0 {
            65
        } else {
            129
        };
        if end - at < size {
            return found;
        }
        if d[at] % 16 == id {
            found = Some(at);
        }
        at = at + size;
    }
    found
}

pub(crate) fn find_quantization(d: &[u8], h: &Vec<usize>, id: u8) -> (r: Option<usize>)
    requires
        d@.len() <= scan::FILE_LIMIT,
        all_markers(d@, h@),
    ensures
        r == quantization_by(d@, h@, h@.len() as int, id as int),
        r matches Some(t) ==> t <= d@.len(),
{
    let mut found: Option<usize> = None;
    for k in 0..h.len()
        invariant
            d@.len() <= scan::FILE_LIMIT,
            all_markers(d@, h@),
            found == quantization_by(d@, h@, k as int, id as int),
            found matches Some(t) ==> t <= d@.len(),
    {
        let i: usize = h[k];
        assert(marker_at(d@, i as int));
        if d[i + 1] == DQT && i + 3 < d.len() {
            found = find_quantization_in(d, i + 4, end_of_segment(d, i), id, found);
        }
    }
    found
}

pub(crate) fn find_interval(d: &[u8], h: &Vec<usize>) -> (r: usize)
    requires
        d@.len() <= scan::FILE_LIMIT,
        all_markers(d@, h@),
    ensures
        r == interval_by(d@, h@, h@.len() as int),
        r < 0x1_0000,
{
    let mut r: usize = 0;
    for k in 0..h.len()
        invariant
            d@.len() <= scan::FILE_LIMIT,
            all_markers(d@, h@),
            r == interval_by(d@, h@, k as int),
            r < 0x1_0000,
    {
        let i: usize = h[k];
        assert(marker_at(d@, i as int));
        if d[i + 1] == DRI && i + 5 < d.len() {
            r = u16_be(d, i + 4);
        }
    }
    r
}

pub(crate) fn fits_scan(d: &[u8], j: usize) -> (b: bool)
    requires
        d@.len() <= scan::FILE_LIMIT,
        marker_at(d@, j as int),
    ensures
        b == scan_fits(d@, j as int),
{
    let left: usize = d.len() - j;
    if left <= 4 {
        return false;
    }
    let n: usize = d[j + 4] as usize;
    1 <= n && n <= 4 && u16_be(d, j + 2) == 6 + 2 * n && left >= 8 + 2 * n
}

fn get_part(d: &[u8], h: &Vec<usize>, i: usize, j: usize, c: usize) -> (r: Option<Part>)
    requires
        d@.len() <= scan::FILE_LIMIT,
        all_markers(d@, h@),
        frame_fits(d@, i as int),
        scan_fits(d@, j as int),
        c < d@[j + 4],
    ensures
        r == part_of(d@, h@, i as int, j as int, c as int),
        r matches Some(part) ==> scan::part_fits(part) && part.comp < components(d@, i as int),
{
    let left: usize = d.len() - j;
    assert(left >= 8 + 2 * d@[j + 4]);
    let s: u8 = d[j + 6 + 2 * c];
    let comp: usize = match find_component(d, i, d[j + 5 + 2 * c]) {
        Some(comp) => comp,
        None => {
            return None;
        },
    };
    let dc = find_table(d, h, s / 16);
    let ac = find_table(d, h, 16 + s % 16);
    let q = find_quantization(d, h, d[i + 12 + 3 * comp]);
    match (dc, ac, q) {
        (Some(dc), Some(ac), Some(q)) => if s / 16 < 4 && s % 16 < 4 {
            Some(Part { comp, dc, ac, q })
        } else {
            None
        },
        _ => None,
    }
}

fn get_parts(d: &[u8], h: &Vec<usize>, i: usize, j: usize, low: usize) -> (r: Option<
    (Vec<Part>, usize),
>)
    requires
        d@.len() <= scan::FILE_LIMIT,
        all_markers(d@, h@),
        frame_fits(d@, i as int),
        scan_fits(d@, j as int),
        low <= 4,
    ensures
        r is Some <==> unit_parts(
            d@,
            h@,
            i as int,
            j as int,
            low as int,
            d@[j + 4] as int,
        ) is Some,
        r matches Some((parts, next)) ==> {
            &&& unit_parts(d@, h@, i as int, j as int, low as int, d@[j + 4] as int) == Some(
                (parts@, next as int),
            )
            &&& 1 <= parts@.len() <= 64
            &&& next <= 4
            &&& forall|k: int| 0 <= k < parts@.len() ==> scan::part_fits(#[trigger] parts@[k])
        },
{
    let left: usize = d.len() - j;
    assert(left >= 8 + 2 * d@[j + 4]);
    let n: usize = d[j + 4] as usize;
    let mut parts: Vec<Part> = Vec::new();
    let mut next: usize = low;
    assert(parts@ =~= Seq::<Part>::empty());
    for c in 0..n
        invariant
            d@.len() <= scan::FILE_LIMIT,
            all_markers(d@, h@),
            frame_fits(d@, i as int),
            scan_fits(d@, j as int),
            n == d@[j + 4],
            next <= 4,
            c <= parts@.len() <= 16 * c,
            forall|k: int| 0 <= k < parts@.len() ==> scan::part_fits(#[trigger] parts@[k]),
            unit_parts(d@, h@, i as int, j as int, low as int, c as int) == Some(
                (parts@, next as int),
            ),
    {
        let part = match get_part(d, h, i, j, c) {
            Some(part) => part,
            None => {
                proof {
                    lemma_no_parts(d@, h@, i as int, j as int, low as int, c + 1, n as int);
                }
                return None;
            },
        };
        if part.comp < next {
            proof {
                lemma_no_parts(d@, h@, i as int, j as int, low as int, c + 1, n as int);
            }
            return None;
        }
        let (x, y) = factors(d, i, part.comp);
        assert(1 <= x * y <= 16) by (nonlinear_arith)
            requires
                1 <= x <= 4,
                1 <= y <= 4,
        ;
        let ghost was = parts@;
        let count: usize = x * y;
        for k in 0..count
            invariant
                count <= 16,
                was.len() <= 16 * c,
                c < 4,
                parts@ == was + Seq::new(k as nat, |e: int| part),
                scan::part_fits(part),
                forall|e: int| 0 <= e < parts@.len() ==> scan::part_fits(#[trigger] parts@[e]),
        {
            parts.push(part);
            assert(parts@ =~= was + Seq::new((k + 1) as nat, |e: int| part));
        }
        assert(parts@ =~= was + Seq::new(count as nat, |e: int| part));
        next = part.comp + 1;
    }
    Some((parts, next))
}

proof fn lemma_no_parts(d: Seq<u8>, h: Seq<usize>, i: int, j: int, low: int, m: int, n: int)
    requires
        unit_parts(d, h, i, j, low, m) is None,
        0 <= m <= n,
    ensures
        unit_parts(d, h, i, j, low, n) is None,
    decreases n - m,
{
    if m < n {
        assert(unit_parts(d, h, i, j, low, m + 1) is None);
        lemma_no_parts(d, h, i, j, low, m + 1, n);
    }
}

pub(crate) fn read_bits(d: &[u8], p: usize) -> (b: BitRun)
    requires
        d@.len() <= scan::FILE_LIMIT,
    ensures
        b@ == bits_from(d@, p as int),
        b.wf(),
{
    BitRun { bytes: read_data(d, p), endless: find_marker(d, p).is_none() }
}

fn find_last_run(d: &[u8], parts: &Vec<Part>, from: usize, units: usize, interval: usize) -> (r:
    Option<usize>)
    requires
        d@.len() <= scan::FILE_LIMIT,
        1 <= parts@.len() <= 64,
        forall|k: int| 0 <= k < parts@.len() ==> scan::part_fits(#[trigger] parts@[k]),
        units <= 2048 * 2048,
    ensures
        r is Some <==> last_run(d@, parts@, from as int, units as int, interval as int) is Some,
        r matches Some(p) ==> last_run(
            d@,
            parts@,
            from as int,
            units as int,
            interval as int,
        ) == Some(p as int),
{
    let mut p: usize = from;
    let mut left: usize = units;
    while left > 0
        invariant
            d@.len() <= scan::FILE_LIMIT,
            1 <= parts@.len() <= 64,
            forall|k: int| 0 <= k < parts@.len() ==> scan::part_fits(#[trigger] parts@[k]),
            left <= 2048 * 2048,
            last_run(d@, parts@, from as int, units as int, interval as int) == last_run(
                d@,
                parts@,
                p as int,
                left as int,
                interval as int,
            ),
        decreases left,
    {
        let run: usize = if interval == 0 || left < interval {
            left
        } else {
            interval
        };
        assert(0 <= run * parts@.len() <= 2048 * 2048 * 64) by (nonlinear_arith)
            requires
                run <= 2048 * 2048,
                parts@.len() <= 64,
        ;
        if !has_blocks(d, parts, &read_bits(d, p), run * parts.len()) {
            return None;
        }
        if left == run {
            return Some(p);
        }
        match find_marker(d, p) {
            Some(e) => {
                if RST0 <= d[e + 1] && d[e + 1] <= RST7 {
                    p = e + 2;
                    left = left - run;
                } else {
                    return None;
                }
            },
            None => {
                return None;
            },
        }
    }
    None
}

pub(crate) fn knows(m: u8) -> (b: bool)
    ensures
        b == is_known(m),
{
    m == SOF0 || m == SOF1 || m == SOF2 || m == DHT || m == DAC || (RST0 <= m && m <= DRI) || m
        == APP0 || m == APP1 || m == APP2 || m == APP13 || m == APP14 || m == COM
}

fn holds_baseline(d: &[u8], h: &Vec<usize>, i: usize, first: usize) -> (b: bool)
    requires
        d@.len() <= scan::FILE_LIMIT,
        all_markers(d@, h@),
        frame_fits(d@, i as int),
        marker_at(d@, first as int),
    ensures
        b == baseline_holds(d@, h@, i as int, first as int, 0, 4),
{
    let units = count_frame_units(d, i);
    let interval = find_interval(d, h);
    let mut j: usize = first;
    let mut low: usize = 0;
    let mut n: usize = 4;
    while n > 0
        invariant
            d@.len() <= scan::FILE_LIMIT,
            all_markers(d@, h@),
            frame_fits(d@, i as int),
            marker_at(d@, j as int),
            units == frame_units(d@, i as int),
            units <= 2048 * 2048,
            interval == interval_by(d@, h@, h@.len() as int),
            low <= 4,
            baseline_holds(d@, h@, i as int, first as int, 0, 4) == baseline_holds(
                d@,
                h@,
                i as int,
                j as int,
                low as int,
                n as nat,
            ),
        decreases n,
    {
        if !fits_scan(d, j) {
            return false;
        }
        let (parts, next) = match get_parts(d, h, i, j, low) {
            Some(x) => x,
            None => {
                return false;
            },
        };
        let count: usize = d[j + 4] as usize;
        let p = match find_last_run(d, &parts, j + 8 + 2 * count, units, interval) {
            Some(p) => p,
            None => {
                return false;
            },
        };
        if d[j + 4] == d[i + 9] {
            return true;
        }
        if interval != 0 {
            return false;
        }
        match find_marker(d, p) {
            None => {
                return true;
            },
            Some(e) => {
                if d[e + 1] != SOS {
                    return knows(d[e + 1]);
                }
                j = e;
                low = next;
                n = n - 1;
            },
        }
    }
    false
}

fn has_no_adobe(d: &[u8], transform: u8) -> (b: bool)
    ensures
        b == forall|j: int| !#[trigger] adobe_at(d@, j, transform),
{
    for j in 0..d.len()
        invariant
            forall|q: int| q < j ==> !#[trigger] adobe_at(d@, q, transform),
    {
        if is_marker(d, j) && d[j + 1] == APP14 && d.len() - j > 15 && d[j + 15] == transform {
            assert(adobe_at(d@, j as int, transform));
            return false;
        }
    }
    true
}

fn fits_transform(d: &[u8], i: usize) -> (b: bool)
    requires
        frame_fits(d@, i as int),
        marker_at(d@, i as int),
    ensures
        b == transform_fits(d@, i as int),
{
    let left: usize = d.len() - i;
    assert(left >= 10);
    let n: u8 = d[i + 9];
    (n != 1 || has_no_adobe(d, 2)) && (n != 4 || d[i + 1] != SOF2 || has_no_adobe(d, 1))
}

/// Whether a file is one on which the decoder is known to return.
pub fn is_decodable(jpeg: &[u8]) -> (b: bool)
    ensures
        b == decodes_safely(jpeg@),
{
    if jpeg.len() > scan::FILE_LIMIT {
        return false;
    }
    let h = find_headers(jpeg);
    if h.len() == 0 {
        return false;
    }
    let first: usize = h[h.len() - 1];
    assert(marker_at(jpeg@, h@[h@.len() - 1] as int));
    if jpeg[first + 1] != SOS {
        return false;
    }
    match find_frame(jpeg, &h) {
        None => false,
        Some(i) => fits_frame(jpeg, i) && fits_transform(jpeg, i) && if jpeg[i + 1] == SOF2 {
            holds_progressive(jpeg, &h, i, first)
        } else {
            holds_baseline(jpeg, &h, i, first)
        },
    }
}

/// The next marker is the first place from `off` on where 0xFF is followed by neither a
/// zero nor another 0xFF.
pub proof fn next_marker_is_the_first(d: Seq<u8>, off: int, i: int)
    requires
        0 <= off,
    ensures
        next_marker(d, off) matches Some(e) ==> {
            &&& off <= e && e + 1 < d.len()
            &&& d[e] == 0xFF && d[e + 1] != 0x00 && d[e + 1] != 0xFF
            &&& off <= i < e ==> d[i] != 0xFF || d[i + 1] == 0x00 || d[i + 1] == 0xFF
        },
        next_marker(d, off) is None && off <= i && i + 1 < d.len() ==> d[i] != 0xFF || d[i + 1]
            == 0x00 || d[i + 1] == 0xFF,
    decreases d.len() - off,
{
    if off + 1 < d.len() && !marker_at(d, off) {
        next_marker_is_the_first(d, off + 1, i);
    }
}

/// A side is covered by whole units, and by no more than it takes: one less would not
/// reach.
pub proof fn units_cover_the_picture(side: int, factor: int)
    requires
        0 < side,
        is_factor(factor),
    ensures
        units(side, factor) * (8 * factor) >= side,
        (units(side, factor) - 1) * (8 * factor) < side,
{
    let u = units(side, factor);
    assert(u * (8 * 1) == 8 * u && u * (8 * 2) == 16 * u && u * (8 * 4) == 32 * u)
        by (nonlinear_arith);
    assert((u - 1) * (8 * factor) == u * (8 * factor) - 8 * factor) by (nonlinear_arith);
    if factor == 1 {
        assert(u == (side + 7) / 8);
    } else if factor == 2 {
        assert(u == (side + 15) / 16);
    } else {
        assert(u == (side + 31) / 32);
    }
}

/// Every usual frame is taken, at every size up to 16384 either way: gray, or three
/// components of which the first may be sampled twice as finely across, down or both.
pub proof fn usual_frames_fit(d: Seq<u8>, i: int)
    requires
        0 <= i,
        i + 19 <= d.len(),
        d[i + 9] == 1 || d[i + 9] == 3,
        0 < 256 * d[i + 5] + d[i + 6] <= 16384,
        0 < 256 * d[i + 7] + d[i + 8] <= 16384,
        d[i + 11] == 0x11 || d[i + 11] == 0x12 || d[i + 11] == 0x21 || d[i + 11] == 0x22,
        d[i + 9] == 3 ==> d[i + 14] == 0x11 && d[i + 17] == 0x11,
    ensures
        frame_fits(d, i),
        width(d, i) == 256 * d[i + 7] + d[i + 8],
        height(d, i) == 256 * d[i + 5] + d[i + 6],
        d[i + 9] == 3 ==> 16 * across(d, i, 0) + down(d, i, 0) == d[i + 11],
        d[i + 9] == 1 ==> across(d, i, 0) == 1 && down(d, i, 0) == 1,
{
    assert forall|c: int| 1 <= c < components(d, i) implies #[trigger] sampling(d, i, c) == 0x11 by {
        if c == 1 {
            assert(sampling(d, i, 1) == d[i + 14]);
        } else {
            assert(sampling(d, i, 2) == d[i + 17]);
        }
    }
    assert(sampling(d, i, 0) == d[i + 11]);
}

/// An ordinary file is let through: a baseline frame that fits, no color transform, and one
/// scan of all its components, whose tables are there and whose bits hold all its blocks,
/// with a restart marker behind every run but the last.
pub proof fn ordinary_files_are_let_through(
    d: Seq<u8>,
    i: usize,
    parts: Seq<Part>,
    next: int,
    last: int,
)
    requires
        d.len() <= 0x7FFF_FFFF,
        ({
            let h = headers(d, 2);
            let j = h.last() as int;
            &&& h.len() > 0
            &&& d[j + 1] == 0xDA
            &&& frame_from(d, h, 0) == Some(i)
            &&& d[i + 1] == 0xC0 || d[i + 1] == 0xC1
            &&& frame_fits(d, i as int)
            &&& forall|k: int| !(marker_at(d, k) && #[trigger] d[k + 1] == 0xEE)
            &&& scan_fits(d, j)
            &&& d[j + 4] == d[i + 9]
            &&& unit_parts(d, h, i as int, j, 0, d[j + 4] as int) == Some((parts, next))
            &&& last_run(
                d,
                parts,
                j + 8 + 2 * d[j + 4],
                frame_units(d, i as int),
                interval_by(d, h, h.len() as int),
            ) == Some(last)
        }),
    ensures
        decodes_safely(d),
{
    assert forall|k: int, t: u8| !#[trigger] adobe_at(d, k, t) by {
        if adobe_at(d, k, t) {
            assert(d[k + 1] == 0xEE);
        }
    }
}

/// Without restarts a scan is one run: it holds what it should exactly where its bits, up
/// to the next marker, hold all its blocks.
pub proof fn one_run_without_restarts(d: Seq<u8>, parts: Seq<Part>, p: int, units: int)
    requires
        units > 0,
    ensures
        last_run(d, parts, p, units, 0) is Some <==> scan::blocks_follow(
            d,
            parts,
            bits_from(d, p),
            0,
            (units * parts.len()) as nat,
            0,
            seq![0i32, 0, 0, 0],
        ),
        last_run(d, parts, p, units, 0) matches Some(q) ==> q == p,
{
}

/// With restarts, each run of as many units as the interval says is a scan of its own
/// behind its restart marker.
pub proof fn restarts_part_a_scan(
    d: Seq<u8>,
    parts: Seq<Part>,
    p: int,
    units: int,
    interval: int,
    e: int,
)
    requires
        0 < interval < units,
        next_marker(d, p) == Some(e),
        0xD0 <= d[e + 1] <= 0xD7,
    ensures
        last_run(d, parts, p, units, interval) == if last_run(d, parts, p, interval, 0) is Some {
            last_run(d, parts, e + 2, units - interval, interval)
        } else {
            None
        },
{
}

/// A segment defines the tables that it lists, each for the destination that its first byte
/// names; later ones take the place of earlier ones, and others are left alone.
pub proof fn tables_are_defined_in_turn(
    d: Seq<u8>,
    at: int,
    end: int,
    id: int,
    found: Option<usize>,
)
    requires
        0 <= at <= usize::MAX,
    ensures
        ({
            let next = at + 17 + code_count(d, at, 16);
            &&& next <= end && d[at] == id ==> table_in(d, at, end, id, found) == table_in(
                d,
                next,
                end,
                id,
                Some(at as usize),
            )
            &&& next <= end && d[at] != id ==> table_in(d, at, end, id, found) == table_in(
                d,
                next,
                end,
                id,
                found,
            )
            &&& table_in(d, end, end, id, found) == found
        }),
        ({
            let next = at + if d[at] < 16 {
                65int
            } else {
                129
            };
            &&& next <= end && d[at] as int % 16 == id ==> quantization_in(d, at, end, id, found)
                == quantization_in(d, next, end, id, Some(at as usize))
            &&& next <= end && d[at] as int % 16 != id ==> quantization_in(d, at, end, id, found)
                == quantization_in(d, next, end, id, found)
            &&& quantization_in(d, end, end, id, found) == found
        }),
{
}

/// A table lists as many codes as its sixteen counts add up to.
pub proof fn counts_add_up(d: Seq<u8>, at: int, n: nat)
    ensures
        code_count(d, at, 0) == 0,
        code_count(d, at, n + 1) == code_count(d, at, n) + d[at + n + 1],
{
}

/// A progressive file is let through where its frame fits, no color transform is given, all
/// its scans hold what they should, and no block grows too large.
pub proof fn progressive_files_are_let_through(d: Seq<u8>, i: usize, sizes: Seq<u16>)
    requires
        d.len() <= 0x7FFF_FFFF,
        ({
            let h = headers(d, 2);
            &&& h.len() > 0
            &&& d[h.last() + 1] == 0xDA
            &&& frame_from(d, h, 0) == Some(i)
            &&& d[i + 1] == 0xC2
            &&& frame_fits(d, i as int)
            &&& forall|k: int| !(marker_at(d, k) && #[trigger] d[k + 1] == 0xEE)
            &&& progressive::after_scans(
                d,
                h,
                i as int,
                h.last() as int,
                100,
                progressive::all_zero(
                    64 * progressive::blocks_before(d, i as int, d[i + 9] as int),
                ),
            ) == Some(sizes)
            &&& progressive::frame_within(d, h, i as int, sizes)
        }),
    ensures
        decodes_safely(d),
{
    assert forall|k: int, t: u8| !#[trigger] adobe_at(d, k, t) by {
        if adobe_at(d, k, t) {
            assert(d[k + 1] == 0xEE);
        }
    }
}

} // verus!
