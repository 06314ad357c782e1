//! Progressive JPEG scans: how far their codes reach, and how large the coefficients
//! grow from scan to scan. Which coefficients are zero so far decides what a refining
//! scan holds, so their sizes are kept.

use crate::bytes::u16_be;
use crate::jpeg;
use crate::jpeg::{
    count_units, end_of_segment, factors, find_component, find_interval, find_marker,
    find_quantization, find_table, fits_scan, knows, read_bits,
};
use crate::scan;
use crate::scan::{get_step, next_dc, power, unsigned, BitRun, Bits};
use vstd::arithmetic::power2::pow2;
use vstd::prelude::*;

verus! {

/// Where a block of a scan goes, and the Huffman table that it is coded with. Blocks of
/// the picture are numbered row by row, component after component.
#[derive(Clone, Copy)]
pub struct Place {
    pub comp: usize,
    pub table: usize,
    /// The component's first block, and how many blocks its rows hold.
    pub base: usize,
    pub stride: usize,
    /// How many blocks one unit holds across and down, and which of them this is.
    pub wide: usize,
    pub high: usize,
    pub dx: usize,
    pub dy: usize,
}

/// What a scan codes.
#[derive(Clone, Copy)]
pub struct Pass {
    /// AC coefficients, from `low` to `high`; else DC coefficients.
    pub ac: bool,
    pub low: u8,
    pub high: u8,
    /// One more bit of each coefficient; else its upper bits.
    pub refines: bool,
    /// The lowest bit coded.
    pub bit: u8,
}

/// Where a run of blocks stands: the next bit, the DC values of the components, how
/// many blocks to come hold nothing new, and the sizes of all coefficients.
pub struct Standing {
    pub pos: int,
    pub dc: Seq<i32>,
    pub empty: int,
    pub sizes: Seq<u16>,
}

/// The sizes with one of them grown by what the next bit adds, if it is set.
pub open spec fn grown(b: Bits, pos: int, sizes: Seq<u16>, at: int, by: int) -> Option<Seq<u16>> {
    let size = sizes[at] + by * scan::bit_at(b, pos);
    if !scan::has_bits(b, pos, 1) || size > scan::BLOCK_LIMIT {
        None
    } else {
        Some(sizes.update(at, size as u16))
    }
}

/// The DC coefficient of the block at `at`.
pub open spec fn dc_block(
    d: Seq<u8>,
    pass: Pass,
    place: Place,
    at: int,
    b: Bits,
    s: Standing,
) -> Option<Standing> {
    if pass.refines {
        match grown(b, s.pos, s.sizes, at, pow2(pass.bit as nat) as int) {
            None => None,
            Some(sizes) => Some(Standing { pos: s.pos + 1, sizes, ..s }),
        }
    } else {
        match scan::dc_after(d, place.table as int, b, s.pos, s.dc[place.comp as int] as int) {
            None => None,
            Some((v, p)) => {
                let size = scan::size_of(v) * pow2(pass.bit as nat);
                if size > scan::BLOCK_LIMIT {
                    None
                } else {
                    Some(
                        Standing {
                            pos: p,
                            dc: s.dc.update(place.comp as int, v as i32),
                            sizes: s.sizes.update(at, size as u16),
                            ..s
                        },
                    )
                }
            },
        }
    }
}

/// The upper bits of a block's AC coefficients from the `k`th on: where they end, how
/// many empty blocks follow, and the sizes.
pub open spec fn ac_first(
    d: Seq<u8>,
    pass: Pass,
    table: int,
    at: int,
    b: Bits,
    pos: int,
    k: int,
    sizes: Seq<u16>,
) -> Option<(int, int, Seq<u16>)>
    decreases 80 - k,
{
    if k > 63 {
        None
    } else {
        match scan::symbol_at(d, table, b, pos) {
            None => None,
            Some((rs, p)) => {
                let (r, s) = (rs as int / 16, rs as int % 16);
                if s == 0 {
                    if r < 15 {
                        if scan::has_bits(b, p, r) {
                            Some(
                                (
                                    p + r,
                                    pow2(r as nat) + scan::number_at(b, p, r as nat) - 1,
                                    sizes,
                                ),
                            )
                        } else {
                            None
                        }
                    } else if k + 16 > pass.high {
                        Some((p, 0, sizes))
                    } else {
                        ac_first(d, pass, table, at, b, p, k + 16, sizes)
                    }
                } else if k + r > 63 || !scan::has_bits(b, p, s) {
                    None
                } else {
                    let size = scan::extra_size(b, p, s as nat) * pow2(pass.bit as nat);
                    let next = sizes.update(at + k + r, size as u16);
                    if size > scan::BLOCK_LIMIT {
                        None
                    } else if k + r + 1 > pass.high {
                        Some((p + s, 0, next))
                    } else {
                        ac_first(d, pass, table, at, b, p + s, k + r + 1, next)
                    }
                }
            },
        }
    }
}

/// One more bit of each AC coefficient that is not zero, from the `k`th on, up to and
/// behind the `zeros`th that is: where the bits end, the coefficient where it stops, and
/// the sizes.
pub open spec fn advanced(
    pass: Pass,
    at: int,
    b: Bits,
    pos: int,
    k: int,
    zeros: int,
    sizes: Seq<u16>,
) -> Option<(int, int, Seq<u16>)>
    decreases pass.high - k,
{
    if sizes[at + k] != 0 {
        match grown(b, pos, sizes, at + k, pow2(pass.bit as nat) as int) {
            None => None,
            Some(next) => if k >= pass.high {
                Some((pos + 1, k, next))
            } else {
                advanced(pass, at, b, pos + 1, k + 1, zeros, next)
            },
        }
    } else if zeros <= 0 || k >= pass.high {
        Some((pos, k, sizes))
    } else {
        advanced(pass, at, b, pos, k + 1, zeros - 1, sizes)
    }
}

/// One more bit of a block's AC coefficients from the `k`th on, up to the end of the
/// block or to a code for empty blocks: where the bits end, the next coefficient, how
/// many blocks are empty from there on, and the sizes.
pub open spec fn ac_refined(
    d: Seq<u8>,
    pass: Pass,
    table: int,
    at: int,
    b: Bits,
    pos: int,
    k: int,
    sizes: Seq<u16>,
) -> Option<(int, int, int, Seq<u16>)>
    decreases 64 - k,
{
    match scan::symbol_at(d, table, b, pos) {
        None => None,
        Some((rs, p)) => {
            let (r, s) = (rs as int / 16, rs as int % 16);
            if s == 0 && r < 15 {
                if scan::has_bits(b, p, r) {
                    Some((p + r, k, pow2(r as nat) + scan::number_at(b, p, r as nat), sizes))
                } else {
                    None
                }
            } else if s > 1 || !scan::has_bits(b, p, s) {
                None
            } else {
                match advanced(pass, at, b, p + s, k, r, sizes) {
                    None => None,
                    Some((e, m, grown)) => {
                        let next = if s == 1 {
                            grown.update(at + m, pow2(pass.bit as nat) as u16)
                        } else {
                            grown
                        };
                        if m + 1 > pass.high || m < k || m > 62 {
                            Some((e, m + 1, 0, next))
                        } else {
                            ac_refined(d, pass, table, at, b, e, m + 1, next)
                        }
                    },
                }
            }
        },
    }
}

/// One more bit of each AC coefficient that is not zero, from the `k`th on.
pub open spec fn rest_refined(
    pass: Pass,
    at: int,
    b: Bits,
    pos: int,
    k: int,
    sizes: Seq<u16>,
) -> Option<(int, Seq<u16>)>
    decreases pass.high + 1 - k,
{
    if k > pass.high {
        Some((pos, sizes))
    } else if sizes[at + k] == 0 {
        rest_refined(pass, at, b, pos, k + 1, sizes)
    } else {
        match grown(b, pos, sizes, at + k, pow2(pass.bit as nat) as int) {
            None => None,
            Some(next) => rest_refined(pass, at, b, pos + 1, k + 1, next),
        }
    }
}

/// What is left of a block in a refining scan from the `k`th coefficient on, `empty`
/// blocks being empty.
pub open spec fn closed_block(
    pass: Pass,
    at: int,
    b: Bits,
    pos: int,
    k: int,
    empty: int,
    sizes: Seq<u16>,
    s: Standing,
) -> Option<Standing> {
    if empty <= 0 {
        Some(Standing { pos, empty: 0, sizes, ..s })
    } else {
        match rest_refined(pass, at, b, pos, k, sizes) {
            None => None,
            Some((p, next)) => Some(Standing { pos: p, empty: empty - 1, sizes: next, ..s }),
        }
    }
}

/// The AC coefficients of the block at `at`.
pub open spec fn ac_block(
    d: Seq<u8>,
    pass: Pass,
    place: Place,
    at: int,
    b: Bits,
    s: Standing,
) -> Option<Standing> {
    let t = place.table as int;
    let k = pass.low as int;
    if pass.refines {
        if s.empty > 0 {
            closed_block(pass, at, b, s.pos, k, s.empty, s.sizes, s)
        } else {
            match ac_refined(d, pass, t, at, b, s.pos, k, s.sizes) {
                None => None,
                Some((p, m, empty, sizes)) => closed_block(pass, at, b, p, m, empty, sizes, s),
            }
        }
    } else if s.empty > 0 {
        Some(Standing { empty: s.empty - 1, ..s })
    } else {
        match ac_first(d, pass, t, at, b, s.pos, k, s.sizes) {
            None => None,
            Some((p, empty, sizes)) => Some(Standing { pos: p, empty, sizes, ..s }),
        }
    }
}

/// Where the coefficients of a block start, in the unit at column `x` and row `y`.
pub open spec fn block_start(place: Place, x: int, y: int) -> int {
    64 * (place.base + (x * place.wide + place.dx) + (y * place.high + place.dy) * place.stride)
}

/// The standing after the blocks from the `k`th to the `n`th of a run, whose first unit
/// is `first`; a row holds `cols` units.
pub open spec fn after_blocks(
    d: Seq<u8>,
    pass: Pass,
    places: Seq<Place>,
    cols: int,
    first: int,
    b: Bits,
    k: nat,
    n: nat,
    s: Standing,
) -> Option<Standing>
    decreases n - k,
{
    if k >= n {
        Some(s)
    } else {
        let place = places[k as int % places.len() as int];
        let unit = first + k as int / places.len() as int;
        let at = block_start(place, unit % cols, unit / cols);
        let next = if at + 64 > s.sizes.len() {
            None
        } else if pass.ac {
            ac_block(d, pass, place, at, b, s)
        } else {
            dc_block(d, pass, place, at, b, s)
        };
        match next {
            None => None,
            Some(t) => after_blocks(d, pass, places, cols, first, b, k + 1, n, t),
        }
    }
}

/// The standing at the start of a run.
pub open spec fn fresh(sizes: Seq<u16>) -> Standing {
    Standing { pos: 0, dc: seq![0i32, 0, 0, 0], empty: 0, sizes }
}

/// Where the last run of a scan of `total` units starts, and the sizes after it; `left`
/// units are left, and their first run starts at `p`.
pub open spec fn last_run(
    d: Seq<u8>,
    pass: Pass,
    places: Seq<Place>,
    cols: int,
    total: int,
    p: int,
    left: int,
    interval: int,
    sizes: Seq<u16>,
) -> Option<(int, Seq<u16>)>
    decreases left,
{
    let run = jpeg::run_of(left, interval);
    if left <= 0 || interval < 0 {
        None
    } else {
        match after_blocks(
            d,
            pass,
            places,
            cols,
            total - left,
            jpeg::bits_from(d, p),
            0,
            (run * places.len()) as nat,
            fresh(sizes),
        ) {
            None => None,
            Some(s) => if left == run {
                Some((p, s.sizes))
            } else {
                match jpeg::next_marker(d, p) {
                    Some(e) => if jpeg::is_restart(d[e + 1]) {
                        last_run(
                            d,
                            pass,
                            places,
                            cols,
                            total,
                            e + 2,
                            left - run,
                            interval,
                            s.sizes,
                        )
                    } else {
                        None
                    },
                    None => None,
                }
            },
        }
    }
}

/// How many blocks a row, and a column, of a component hold.
pub open spec fn row_blocks(d: Seq<u8>, i: int, c: int) -> int {
    jpeg::across(d, i, c) * jpeg::units(jpeg::width(d, i), jpeg::across(d, i, 0))
}

pub open spec fn column_blocks(d: Seq<u8>, i: int, c: int) -> int {
    jpeg::down(d, i, c) * jpeg::units(jpeg::height(d, i), jpeg::down(d, i, 0))
}

/// How many blocks the first `c` components hold.
pub open spec fn blocks_before(d: Seq<u8>, i: int, c: int) -> int
    decreases c,
{
    if c <= 0 {
        0
    } else {
        blocks_before(d, i, c - 1) + row_blocks(d, i, c - 1) * column_blocks(d, i, c - 1)
    }
}

/// What the scan at `j` codes.
pub open spec fn pass_of(d: Seq<u8>, j: int) -> Option<Pass> {
    let n = d[j + 4] as int;
    let (low, high, bits) = (d[j + 5 + 2 * n], d[j + 6 + 2 * n], d[j + 7 + 2 * n]);
    let ac = n == 1 && low > 0;
    if bits / 16 > 13 || bits % 16 > 13 || high > 63 {
        None
    } else if ac && low > high || !ac && high > 0 {
        None
    } else {
        Some(Pass { ac, low, high, refines: bits / 16 > 0, bit: (bits % 16) as u8 })
    }
}

/// The blocks of the `c`th component in one unit of the scan at `j`.
pub open spec fn places_of(
    d: Seq<u8>,
    h: Seq<usize>,
    i: int,
    j: int,
    ac: bool,
    c: int,
) -> Option<Seq<Place>> {
    let s = d[j + 6 + 2 * c] as int;
    let id = if ac {
        16 + s % 16
    } else {
        s / 16
    };
    match (
        jpeg::component_from(d, i, d[j + 5 + 2 * c], 0),
        jpeg::table_by(d, h, h.len() as int, id),
    ) {
        (Some(comp), Some(table)) => if id % 16 > 3 {
            None
        } else {
            let (wide, high) = if d[j + 4] == 1 {
                (1int, 1int)
            } else {
                (jpeg::across(d, i, comp), jpeg::down(d, i, comp))
            };
            Some(
                Seq::new(
                    (wide * high) as nat,
                    |k: int|
                        Place {
                            comp: comp as usize,
                            table,
                            base: blocks_before(d, i, comp) as usize,
                            stride: row_blocks(d, i, comp) as usize,
                            wide: wide as usize,
                            high: high as usize,
                            dx: (k % wide) as usize,
                            dy: (k / wide) as usize,
                        },
                ),
            )
        },
        _ => None,
    }
}

/// The blocks of the first `n` components in one unit of the scan at `j`.
pub open spec fn unit_places(
    d: Seq<u8>,
    h: Seq<usize>,
    i: int,
    j: int,
    ac: bool,
    n: int,
) -> Option<Seq<Place>>
    decreases n,
{
    if n <= 0 {
        Some(Seq::empty())
    } else {
        match (unit_places(d, h, i, j, ac, n - 1), places_of(d, h, i, j, ac, n - 1)) {
            (Some(front), Some(more)) => Some(front + more),
            _ => None,
        }
    }
}

/// How many units a row, and a column, of a scan hold: the first component alone is
/// coded block by block.
pub open spec fn scan_cols(d: Seq<u8>, i: int, j: int) -> int {
    jpeg::units(
        jpeg::width(d, i),
        if d[j + 4] == 1 && d[j + 5] == d[i + 10] {
            1
        } else {
            jpeg::across(d, i, 0)
        },
    )
}

pub open spec fn scan_rows(d: Seq<u8>, i: int, j: int) -> int {
    jpeg::units(
        jpeg::height(d, i),
        if d[j + 4] == 1 && d[j + 5] == d[i + 10] {
            1
        } else {
            jpeg::down(d, i, 0)
        },
    )
}

/// The headers and the next scan behind a scan whose last run starts at `p`, or behind
/// segments that end there; no scan where the file ends. The decoder comes to no end
/// where it finds no marker behind a restart marker.
pub open spec fn next_scan(d: Seq<u8>, h: Seq<usize>, p: int, behind_scan: bool) -> Option<
    (Seq<usize>, Option<int>),
>
    decreases d.len() - p,
{
    match jpeg::next_marker(d, p) {
        None => if behind_scan {
            Some((h, None))
        } else {
            None
        },
        Some(e) => {
            let m = d[e + 1];
            if m == jpeg::EOI {
                Some((h, None))
            } else if m == jpeg::SOS {
                Some((h, Some(e)))
            } else if e < p || e + 1 >= d.len() || !jpeg::is_known(m) {
                None
            } else if jpeg::is_restart(m) {
                next_scan(d, h, e + 2, false)
            } else if jpeg::stops_headers(d, e) {
                None
            } else {
                next_scan(d, h.push(e as usize), jpeg::segment_end(d, e), false)
            }
        },
    }
}

/// The sizes of all coefficients after the scan at `j` and the scans that follow, at most
/// `n` of them, of the progressive frame at `i`.
pub open spec fn after_scans(
    d: Seq<u8>,
    h: Seq<usize>,
    i: int,
    j: int,
    n: nat,
    sizes: Seq<u16>,
) -> Option<Seq<u16>>
    decreases n,
{
    if n == 0 || !jpeg::scan_fits(d, j) {
        None
    } else {
        match pass_of(d, j) {
            None => None,
            Some(pass) => match unit_places(d, h, i, j, pass.ac, d[j + 4] as int) {
                None => None,
                Some(places) => {
                    let units = scan_cols(d, i, j) * scan_rows(d, i, j);
                    match last_run(
                        d,
                        pass,
                        places,
                        scan_cols(d, i, j),
                        units,
                        j + 8 + 2 * d[j + 4],
                        units,
                        jpeg::interval_by(d, h, h.len() as int),
                        sizes,
                    ) {
                        None => None,
                        Some((p, next)) => match next_scan(d, h, p, true) {
                            None => None,
                            Some((_, None)) => Some(next),
                            Some((g, Some(e))) => after_scans(d, g, i, e, (n - 1) as nat, next),
                        },
                    }
                },
            },
        }
    }
}

/// What the first `n` coefficients of the block at `at` add up to.
pub open spec fn block_sum(d: Seq<u8>, q: int, sizes: Seq<u16>, at: int, n: int) -> int
    decreases n,
{
    if n <= 0 {
        0
    } else {
        block_sum(d, q, sizes, at, n - 1) + sizes[at + n - 1] * scan::step_at(d, q, n - 1)
    }
}

/// Whether the `k`th block is within the limit.
pub open spec fn block_within(d: Seq<u8>, q: int, sizes: Seq<u16>, k: int) -> bool {
    block_sum(d, q, sizes, 64 * k, 64) <= scan::BLOCK_LIMIT
}

/// Whether every block of the `c`th component is within the limit, by the quantization
/// table at `q`.
pub open spec fn blocks_within(d: Seq<u8>, i: int, q: int, sizes: Seq<u16>, c: int) -> bool {
    forall|k: int|
        blocks_before(d, i, c) <= k < blocks_before(d, i, c + 1) ==> #[trigger] block_within(
            d,
            q,
            sizes,
            k,
        )
}

/// Whether every block of the `c`th component is within the limit.
pub open spec fn component_within(
    d: Seq<u8>,
    h: Seq<usize>,
    i: int,
    sizes: Seq<u16>,
    c: int,
) -> bool {
    match jpeg::quantization_by(d, h, h.len() as int, d[i + 12 + 3 * c] as int) {
        None => false,
        Some(q) => blocks_within(d, i, q as int, sizes, c),
    }
}

/// Whether every block of the frame at `i` is within the limit.
pub open spec fn frame_within(d: Seq<u8>, h: Seq<usize>, i: int, sizes: Seq<u16>) -> bool {
    forall|c: int|
        0 <= c < jpeg::components(d, i) ==> #[trigger] component_within(d, h, i, sizes, c)
}

/// The sizes at first.
pub open spec fn all_zero(n: int) -> Seq<u16> {
    Seq::new(n as nat, |k: int| 0u16)
}

/// Whether the scans of the progressive frame at `i`, of which the first one stands at
/// `j`, hold what the frame announces, and every block is within the limit.
pub open spec fn progressive_holds(d: Seq<u8>, h: Seq<usize>, i: int, j: int) -> bool {
    let blocks = blocks_before(d, i, jpeg::components(d, i) as int);
    match after_scans(d, h, i, j, 100, all_zero(64 * blocks)) {
        None => false,
        Some(sizes) => frame_within(d, h, i, sizes),
    }
}

/// How many coefficients the largest picture has, at most.
pub const SIZES_LIMIT: usize = 0x4000_0000;

/// The sizes of the coefficients are kept for as many blocks as before.
pub open spec fn same_len(a: Seq<u16>, b: Seq<u16>) -> bool {
    a.len() == b.len()
}

/// Parameters that bits can be counted with.
pub open spec fn pass_fits(pass: Pass) -> bool {
    &&& pass.high <= 63
    &&& pass.bit <= 13
    &&& pass.ac ==> pass.low <= pass.high
}

fn grow(b: &BitRun, pos: u64, sizes: &mut Vec<u16>, at: usize, by: u32) -> (ok: bool)
    requires
        b.wf(),
        pos <= scan::ENDLESS,
        at < old(sizes)@.len(),
        by <= 0x8000,
    ensures
        same_len(final(sizes)@, old(sizes)@),
        ok ==> grown(b@, pos as int, old(sizes)@, at as int, by as int) == Some(final(sizes)@) && pos
            + 1 <= scan::ENDLESS,
        !ok ==> grown(b@, pos as int, old(sizes)@, at as int, by as int) is None,
{
    if !b.has(pos, 1) {
        return false;
    }
    let size: u32 = if b.bit(pos) == 1 {
        sizes[at] as u32 + by
    } else {
        sizes[at] as u32
    };
    if size as u64 > scan::BLOCK_LIMIT {
        return false;
    }
    sizes.set(at, size as u16);
    true
}

/// Where a run of blocks stands, but for the sizes.
pub struct Cursor {
    pub pos: u64,
    pub dc: Vec<i32>,
    pub empty: u32,
}

impl Cursor {
    /// The standing with the given sizes.
    pub open spec fn with(&self, sizes: Seq<u16>) -> Standing {
        Standing { pos: self.pos as int, dc: self.dc@, empty: self.empty as int, sizes }
    }

    /// Within bounds.
    pub open spec fn wf(&self) -> bool {
        &&& self.pos <= scan::ENDLESS
        &&& self.dc@.len() == 4
        &&& forall|i: int| 0 <= i < 4 ==> -0x8000 <= #[trigger] self.dc@[i] <= 0x8000
    }
}

fn take_dc(
    d: &[u8],
    pass: Pass,
    place: &Place,
    at: usize,
    b: &BitRun,
    s: &mut Cursor,
    sizes: &mut Vec<u16>,
) -> (ok: bool)
    requires
        b.wf(),
        old(s).wf(),
        pass_fits(pass),
        place.comp < 4,
        place.table <= scan::FILE_LIMIT + 416,
        at < old(sizes)@.len(),
    ensures
        same_len(final(sizes)@, old(sizes)@),
        ok ==> final(s).wf(),
        ok ==> dc_block(d@, pass, *place, at as int, b@, old(s).with(old(sizes)@)) == Some(
            final(s).with(final(sizes)@),
        ),
        !ok ==> dc_block(d@, pass, *place, at as int, b@, old(s).with(old(sizes)@)) is None,
{
    let unit: u32 = power(pass.bit);
    if pass.refines {
        if !grow(b, s.pos, sizes, at, unit) {
            return false;
        }
        s.pos = s.pos + 1;
        return true;
    }
    match next_dc(d, place.table, b, s.pos, s.dc[place.comp]) {
        None => false,
        Some((v, p)) => {
            let plain: u32 = unsigned(v);
            proof {
                scan::lemma_small_power(pass.bit as nat);
                scan::lemma_product(plain as int, unit as int, 0x1_0000, 0x8000);
                scan::lemma_product(plain as int, 1, plain as int, unit as int);
            }
            let size: u64 = plain as u64 * unit as u64;
            if size > scan::BLOCK_LIMIT {
                return false;
            }
            sizes.set(at, size as u16);
            s.dc.set(place.comp, v);
            s.pos = p;
            true
        },
    }
}

fn take_ac_first(
    d: &[u8],
    pass: Pass,
    table: usize,
    at: usize,
    b: &BitRun,
    from: u64,
    sizes: &mut Vec<u16>,
) -> (r: Option<(u64, u32)>)
    requires
        b.wf(),
        from <= scan::ENDLESS,
        pass_fits(pass),
        pass.ac,
        table <= scan::FILE_LIMIT + 416,
        at + 64 <= old(sizes)@.len(),
        at <= SIZES_LIMIT,
    ensures
        same_len(final(sizes)@, old(sizes)@),
        r is None <==> ac_first(
            d@,
            pass,
            table as int,
            at as int,
            b@,
            from as int,
            pass.low as int,
            old(sizes)@,
        ) is None,
        r matches Some((p, empty)) ==> p <= scan::ENDLESS && ac_first(
            d@,
            pass,
            table as int,
            at as int,
            b@,
            from as int,
            pass.low as int,
            old(sizes)@,
        ) == Some((p as int, empty as int, final(sizes)@)),
{
    let unit: u32 = power(pass.bit);
    let high: usize = pass.high as usize;
    let mut pos: u64 = from;
    let mut k: usize = pass.low as usize;
    loop
        invariant
            b.wf(),
            pos <= scan::ENDLESS,
            pass_fits(pass),
            high == pass.high,
            k <= high,
            unit == pow2(pass.bit as nat),
            unit <= 0x8000,
            table <= scan::FILE_LIMIT + 416,
            at + 64 <= sizes@.len(),
            at <= SIZES_LIMIT,
            same_len(sizes@, old(sizes)@),
            ac_first(
                d@,
                pass,
                table as int,
                at as int,
                b@,
                from as int,
                pass.low as int,
                old(sizes)@,
            ) == ac_first(d@, pass, table as int, at as int, b@, pos as int, k as int, sizes@),
        decreases 80 - k,
    {
        let (rs, p) = match b.symbol(d, table, pos) {
            Some(x) => x,
            None => {
                return None;
            },
        };
        let r: u8 = rs / 16;
        let s: u8 = rs % 16;
        if s == 0 {
            if r < 15 {
                if !b.has(p, r as u64) {
                    return None;
                }
                let more: u32 = b.number(p, r);
                let ones: u32 = power(r);
                proof {
                    scan::lemma_small_power(r as nat);
                }
                return Some((p + r as u64, ones + more - 1));
            }
            if k + 16 > high {
                return Some((p, 0));
            }
            pos = p;
            k = k + 16;
        } else {
            if k + r as usize > 63 || !b.has(p, s as u64) {
                return None;
            }
            let plain: u32 = unsigned(b.extra(p, s));
            proof {
                scan::lemma_product(plain as int, unit as int, 0x8000, 0x8000);
            }
            let size: u64 = plain as u64 * unit as u64;
            if size > scan::BLOCK_LIMIT {
                return None;
            }
            sizes.set(at + k + r as usize, size as u16);
            pos = p + s as u64;
            k = k + r as usize + 1;
            if k > high {
                return Some((pos, 0));
            }
        }
    }
}

fn advance(
    pass: Pass,
    at: usize,
    b: &BitRun,
    from: u64,
    low: usize,
    run: u8,
    sizes: &mut Vec<u16>,
) -> (r: Option<(u64, usize)>)
    requires
        b.wf(),
        from <= scan::ENDLESS,
        pass_fits(pass),
        low <= pass.high,
        at + 64 <= old(sizes)@.len(),
        at <= SIZES_LIMIT,
    ensures
        same_len(final(sizes)@, old(sizes)@),
        r is None <==> advanced(
            pass,
            at as int,
            b@,
            from as int,
            low as int,
            run as int,
            old(sizes)@,
        ) is None,
        r matches Some((p, k)) ==> p <= scan::ENDLESS && low <= k <= pass.high && advanced(
            pass,
            at as int,
            b@,
            from as int,
            low as int,
            run as int,
            old(sizes)@,
        ) == Some((p as int, k as int, final(sizes)@)),
{
    let unit: u32 = power(pass.bit);
    let high: usize = pass.high as usize;
    let mut pos: u64 = from;
    let mut k: usize = low;
    let mut zeros: u8 = run;
    loop
        invariant
            b.wf(),
            pos <= scan::ENDLESS,
            pass_fits(pass),
            high == pass.high,
            low <= k <= high,
            unit == pow2(pass.bit as nat),
            unit <= 0x8000,
            at + 64 <= sizes@.len(),
            at <= SIZES_LIMIT,
            same_len(sizes@, old(sizes)@),
            advanced(
                pass,
                at as int,
                b@,
                from as int,
                low as int,
                run as int,
                old(sizes)@,
            ) == advanced(pass, at as int, b@, pos as int, k as int, zeros as int, sizes@),
        decreases 64 - k,
    {
        if sizes[at + k] != 0 {
            if !grow(b, pos, sizes, at + k, unit) {
                return None;
            }
            pos = pos + 1;
            if k >= high {
                return Some((pos, k));
            }
        } else {
            if zeros == 0 || k >= high {
                return Some((pos, k));
            }
            zeros = zeros - 1;
        }
        k = k + 1;
    }
}

fn take_ac_refined(
    d: &[u8],
    pass: Pass,
    table: usize,
    at: usize,
    b: &BitRun,
    from: u64,
    sizes: &mut Vec<u16>,
) -> (r: Option<(u64, usize, u32)>)
    requires
        b.wf(),
        from <= scan::ENDLESS,
        pass_fits(pass),
        pass.ac,
        table <= scan::FILE_LIMIT + 416,
        at + 64 <= old(sizes)@.len(),
        at <= SIZES_LIMIT,
    ensures
        same_len(final(sizes)@, old(sizes)@),
        r is None <==> ac_refined(
            d@,
            pass,
            table as int,
            at as int,
            b@,
            from as int,
            pass.low as int,
            old(sizes)@,
        ) is None,
        r matches Some((p, k, empty)) ==> p <= scan::ENDLESS && k <= 64 && ac_refined(
            d@,
            pass,
            table as int,
            at as int,
            b@,
            from as int,
            pass.low as int,
            old(sizes)@,
        ) == Some((p as int, k as int, empty as int, final(sizes)@)),
{
    let unit: u32 = power(pass.bit);
    proof {
        scan::lemma_small_power(pass.bit as nat);
    }
    let high: usize = pass.high as usize;
    let mut pos: u64 = from;
    let mut k: usize = pass.low as usize;
    loop
        invariant
            b.wf(),
            pos <= scan::ENDLESS,
            pass_fits(pass),
            high == pass.high,
            k <= high,
            unit == pow2(pass.bit as nat),
            unit <= 0x8000,
            table <= scan::FILE_LIMIT + 416,
            at + 64 <= sizes@.len(),
            at <= SIZES_LIMIT,
            same_len(sizes@, old(sizes)@),
            ac_refined(
                d@,
                pass,
                table as int,
                at as int,
                b@,
                from as int,
                pass.low as int,
                old(sizes)@,
            ) == ac_refined(d@, pass, table as int, at as int, b@, pos as int, k as int, sizes@),
        decreases 64 - k,
    {
        let (rs, p) = match b.symbol(d, table, pos) {
            Some(x) => x,
            None => {
                return None;
            },
        };
        let r: u8 = rs / 16;
        let s: u8 = rs % 16;
        if s == 0 && r < 15 {
            if !b.has(p, r as u64) {
                return None;
            }
            let more: u32 = b.number(p, r);
            let ones: u32 = power(r);
            return Some((p + r as u64, k, ones + more));
        }
        if s > 1 || !b.has(p, s as u64) {
            return None;
        }
        let (e, m) = match advance(pass, at, b, p + s as u64, k, r, sizes) {
            Some(x) => x,
            None => {
                return None;
            },
        };
        if s == 1 {
            sizes.set(at + m, unit as u16);
        }
        if m + 1 > high {
            return Some((e, m + 1, 0));
        }
        pos = e;
        k = m + 1;
    }
}

fn refine_rest(
    pass: Pass,
    at: usize,
    b: &BitRun,
    from: u64,
    low: usize,
    sizes: &mut Vec<u16>,
) -> (r: Option<u64>)
    requires
        b.wf(),
        from <= scan::ENDLESS,
        pass_fits(pass),
        low <= 64,
        at + 64 <= old(sizes)@.len(),
        at <= SIZES_LIMIT,
    ensures
        same_len(final(sizes)@, old(sizes)@),
        r is None <==> rest_refined(
            pass,
            at as int,
            b@,
            from as int,
            low as int,
            old(sizes)@,
        ) is None,
        r matches Some(p) ==> p <= scan::ENDLESS && rest_refined(
            pass,
            at as int,
            b@,
            from as int,
            low as int,
            old(sizes)@,
        ) == Some((p as int, final(sizes)@)),
{
    let unit: u32 = power(pass.bit);
    let high: usize = pass.high as usize;
    let mut pos: u64 = from;
    let mut k: usize = low;
    while k <= high
        invariant
            b.wf(),
            pos <= scan::ENDLESS,
            pass_fits(pass),
            high == pass.high,
            k <= 64,
            unit == pow2(pass.bit as nat),
            unit <= 0x8000,
            at + 64 <= sizes@.len(),
            at <= SIZES_LIMIT,
            same_len(sizes@, old(sizes)@),
            rest_refined(pass, at as int, b@, from as int, low as int, old(sizes)@)
                == rest_refined(pass, at as int, b@, pos as int, k as int, sizes@),
        decreases 65 - k,
    {
        if sizes[at + k] != 0 {
            if !grow(b, pos, sizes, at + k, unit) {
                return None;
            }
            pos = pos + 1;
        }
        k = k + 1;
    }
    Some(pos)
}

fn take_ac(
    d: &[u8],
    pass: Pass,
    place: &Place,
    at: usize,
    b: &BitRun,
    s: &mut Cursor,
    sizes: &mut Vec<u16>,
) -> (ok: bool)
    requires
        b.wf(),
        old(s).wf(),
        pass_fits(pass),
        pass.ac,
        place.table <= scan::FILE_LIMIT + 416,
        at + 64 <= old(sizes)@.len(),
        at <= SIZES_LIMIT,
    ensures
        same_len(final(sizes)@, old(sizes)@),
        ok ==> final(s).wf(),
        ok ==> ac_block(d@, pass, *place, at as int, b@, old(s).with(old(sizes)@)) == Some(
            final(s).with(final(sizes)@),
        ),
        !ok ==> ac_block(d@, pass, *place, at as int, b@, old(s).with(old(sizes)@)) is None,
{
    if !pass.refines {
        if s.empty > 0 {
            s.empty = s.empty - 1;
            return true;
        }
        return match take_ac_first(d, pass, place.table, at, b, s.pos, sizes) {
            None => false,
            Some((p, empty)) => {
                s.pos = p;
                s.empty = empty;
                true
            },
        };
    }
    let mut k: usize = pass.low as usize;
    let mut pos: u64 = s.pos;
    let mut empty: u32 = s.empty;
    if empty == 0 {
        match take_ac_refined(d, pass, place.table, at, b, pos, sizes) {
            None => {
                return false;
            },
            Some((p, m, e)) => {
                pos = p;
                k = m;
                empty = e;
            },
        }
    }
    if empty > 0 {
        match refine_rest(pass, at, b, pos, k, sizes) {
            None => {
                return false;
            },
            Some(p) => {
                pos = p;
            },
        }
        empty = empty - 1;
    }
    s.pos = pos;
    s.empty = empty;
    true
}

/// A place that can be counted with.
pub open spec fn place_fits(place: Place) -> bool {
    &&& place.comp < 4
    &&& place.table <= scan::FILE_LIMIT + 416
    &&& place.base <= 0x100_0000
    &&& place.stride <= 2048
    &&& place.wide <= 4
    &&& place.high <= 4
    &&& place.dx <= 4
    &&& place.dy <= 4
}

fn start_of(place: &Place, x: usize, y: usize) -> (at: u64)
    requires
        place_fits(*place),
        x <= 0x40_0000,
        y <= 0x40_0000,
    ensures
        at == block_start(*place, x as int, y as int),
        at <= 0x1000_0000_0000,
{
    proof {
        scan::lemma_product(x as int, place.wide as int, 0x40_0000, 4);
        scan::lemma_product(y as int, place.high as int, 0x40_0000, 4);
        scan::lemma_product(
            y * place.high + place.dy,
            place.stride as int,
            0x100_0004,
            2048,
        );
    }
    let col: u64 = x as u64 * place.wide as u64 + place.dx as u64;
    let row: u64 = y as u64 * place.high as u64 + place.dy as u64;
    64 * (place.base as u64 + col + row * place.stride as u64)
}

fn take_blocks(
    d: &[u8],
    pass: Pass,
    places: &Vec<Place>,
    cols: usize,
    first: usize,
    b: &BitRun,
    n: usize,
    sizes: &mut Vec<u16>,
) -> (ok: bool)
    requires
        b.wf(),
        pass_fits(pass),
        1 <= places@.len() <= 64,
        forall|i: int| 0 <= i < places@.len() ==> place_fits(#[trigger] places@[i]),
        1 <= cols <= 2048,
        first + n <= 0x40_0000 * 65,
        first as int + n as int / places@.len() as int <= 0x40_0000,
        old(sizes)@.len() <= SIZES_LIMIT,
    ensures
        same_len(final(sizes)@, old(sizes)@),
        ok ==> (after_blocks(
            d@,
            pass,
            places@,
            cols as int,
            first as int,
            b@,
            0,
            n as nat,
            fresh(old(sizes)@),
        ) matches Some(s) && s.sizes == final(sizes)@),
        !ok ==> after_blocks(
            d@,
            pass,
            places@,
            cols as int,
            first as int,
            b@,
            0,
            n as nat,
            fresh(old(sizes)@),
        ) is None,
{
    let mut s = Cursor { pos: 0, dc: vec![0, 0, 0, 0], empty: 0 };
    assert(s.dc@ =~= seq![0i32, 0, 0, 0]);
    let mut k: usize = 0;
    while k < n
        invariant
            b.wf(),
            pass_fits(pass),
            1 <= places@.len() <= 64,
            forall|i: int| 0 <= i < places@.len() ==> place_fits(#[trigger] places@[i]),
            1 <= cols <= 2048,
            first as int + n as int / places@.len() as int <= 0x40_0000,
            k <= n,
            s.wf(),
            sizes@.len() <= SIZES_LIMIT,
            same_len(sizes@, old(sizes)@),
            after_blocks(
                d@,
                pass,
                places@,
                cols as int,
                first as int,
                b@,
                0,
                n as nat,
                fresh(old(sizes)@),
            ) == after_blocks(
                d@,
                pass,
                places@,
                cols as int,
                first as int,
                b@,
                k as nat,
                n as nat,
                s.with(sizes@),
            ),
        decreases n - k,
    {
        let place = &places[k % places.len()];
        proof {
            lemma_unit(k as int, n as int, places@.len() as int, first as int, cols as int);
        }
        let unit: usize = first + k / places.len();
        let at: u64 = start_of(place, unit % cols, unit / cols);
        if at + 64 > sizes.len() as u64 {
            return false;
        }
        let ok = if pass.ac {
            take_ac(d, pass, place, at as usize, b, &mut s, sizes)
        } else {
            take_dc(d, pass, place, at as usize, b, &mut s, sizes)
        };
        if !ok {
            return false;
        }
        k = k + 1;
    }
    true
}

proof fn lemma_unit(k: int, n: int, len: int, first: int, cols: int)
    requires
        0 <= k < n,
        1 <= len,
        1 <= cols,
        0 <= first,
        first + n / len <= 0x40_0000,
    ensures
        0 <= k / len <= n / len,
        0 <= (first + k / len) % cols <= 0x40_0000,
        0 <= (first + k / len) / cols <= 0x40_0000,
{
    assert(0 <= k / len <= n / len) by (nonlinear_arith)
        requires
            0 <= k < n,
            1 <= len,
    ;
    let u = first + k / len;
    assert(0 <= u % cols <= u && 0 <= u / cols <= u) by (nonlinear_arith)
        requires
            0 <= u,
            1 <= cols,
    ;
}

proof fn lemma_run_units(run: int, len: int)
    requires
        0 <= run <= 0x40_0000,
        1 <= len <= 64,
    ensures
        0 <= run * len <= 0x40_0000 * 64,
        run * len / len == run,
{
    scan::lemma_product(run, len, 0x40_0000, 64);
    assert(run * len / len == run) by (nonlinear_arith)
        requires
            1 <= len,
    ;
}

fn find_last_run(
    d: &[u8],
    pass: Pass,
    places: &Vec<Place>,
    cols: usize,
    total: usize,
    from: usize,
    interval: usize,
    sizes: &mut Vec<u16>,
) -> (r: Option<usize>)
    requires
        d@.len() <= scan::FILE_LIMIT,
        pass_fits(pass),
        1 <= places@.len() <= 64,
        forall|i: int| 0 <= i < places@.len() ==> place_fits(#[trigger] places@[i]),
        1 <= cols <= 2048,
        total <= 0x40_0000,
        old(sizes)@.len() <= SIZES_LIMIT,
    ensures
        same_len(final(sizes)@, old(sizes)@),
        r is None <==> last_run(
            d@,
            pass,
            places@,
            cols as int,
            total as int,
            from as int,
            total as int,
            interval as int,
            old(sizes)@,
        ) is None,
        r matches Some(p) ==> last_run(
            d@,
            pass,
            places@,
            cols as int,
            total as int,
            from as int,
            total as int,
            interval as int,
            old(sizes)@,
        ) == Some((p as int, final(sizes)@)),
{
    let mut p: usize = from;
    let mut left: usize = total;
    while left > 0
        invariant
            d@.len() <= scan::FILE_LIMIT,
            pass_fits(pass),
            1 <= places@.len() <= 64,
            forall|i: int| 0 <= i < places@.len() ==> place_fits(#[trigger] places@[i]),
            1 <= cols <= 2048,
            left <= total <= 0x40_0000,
            sizes@.len() <= SIZES_LIMIT,
            same_len(sizes@, old(sizes)@),
            last_run(
                d@,
                pass,
                places@,
                cols as int,
                total as int,
                from as int,
                total as int,
                interval as int,
                old(sizes)@,
            ) == last_run(
                d@,
                pass,
                places@,
                cols as int,
                total as int,
                p as int,
                left as int,
                interval as int,
                sizes@,
            ),
        decreases left,
    {
        let run: usize = if interval == 0 || left < interval {
            left
        } else {
            interval
        };
        proof {
            lemma_run_units(run as int, places@.len() as int);
        }
        let bits = read_bits(d, p);
        if !take_blocks(
            d,
            pass,
            places,
            cols,
            total - left,
            &bits,
            run * places.len(),
            sizes,
        ) {
            return None;
        }
        if left == run {
            return Some(p);
        }
        match find_marker(d, p) {
            Some(e) => {
                if jpeg::RST0 <= d[e + 1] && d[e + 1] <= jpeg::RST7 {
                    p = e + 2;
                    left = left - run;
                } else {
                    return None;
                }
            },
            None => {
                return None;
            },
        }
    }
    None
}

fn get_pass(d: &[u8], j: usize) -> (r: Option<Pass>)
    requires
        d@.len() <= scan::FILE_LIMIT,
        jpeg::scan_fits(d@, j as int),
    ensures
        r == pass_of(d@, j as int),
        r matches Some(pass) ==> pass_fits(pass),
{
    let left: usize = d.len() - j;
    assert(left >= 8 + 2 * d@[j + 4]);
    let n: usize = d[j + 4] as usize;
    let low: u8 = d[j + 5 + 2 * n];
    let high: u8 = d[j + 6 + 2 * n];
    let bits: u8 = d[j + 7 + 2 * n];
    let ac = n == 1 && low > 0;
    if bits / 16 > 13 || bits % 16 > 13 || high > 63 {
        return None;
    }
    if (ac && low > high) || (!ac && high > 0) {
        return None;
    }
    Some(Pass { ac, low, high, refines: bits / 16 > 0, bit: bits % 16 })
}

fn count_row(d: &[u8], i: usize, c: usize) -> (n: usize)
    requires
        jpeg::frame_fits(d@, i as int),
        c < jpeg::components(d@, i as int),
    ensures
        n == row_blocks(d@, i as int, c as int),
        1 <= n <= 2048,
{
    let left: usize = d.len() - i;
    assert(left >= 10);
    let (most, _) = factors(d, i, 0);
    let (x, _) = factors(d, i, c);
    proof {
        lemma_first_most(d@, i as int, c as int);
    }
    let u = count_units(u16_be(d, i + 7), most);
    x * u
}

fn count_column(d: &[u8], i: usize, c: usize) -> (n: usize)
    requires
        jpeg::frame_fits(d@, i as int),
        c < jpeg::components(d@, i as int),
    ensures
        n == column_blocks(d@, i as int, c as int),
        1 <= n <= 2048,
{
    let left: usize = d.len() - i;
    assert(left >= 10);
    let (_, most) = factors(d, i, 0);
    let (_, y) = factors(d, i, c);
    proof {
        lemma_first_most(d@, i as int, c as int);
    }
    let u = count_units(u16_be(d, i + 5), most);
    y * u
}

proof fn lemma_first_most(d: Seq<u8>, i: int, c: int)
    requires
        jpeg::frame_fits(d, i),
        0 <= c < jpeg::components(d, i),
    ensures
        1 <= jpeg::across(d, i, c) <= jpeg::across(d, i, 0) <= 4,
        1 <= jpeg::down(d, i, c) <= jpeg::down(d, i, 0) <= 4,
        1 <= row_blocks(d, i, c) <= 2048,
        1 <= column_blocks(d, i, c) <= 2048,
{
    let s = jpeg::sampling(d, i, c);
    lemma_side_blocks(jpeg::width(d, i), jpeg::across(d, i, 0), jpeg::across(d, i, c));
    lemma_side_blocks(jpeg::height(d, i), jpeg::down(d, i, 0), jpeg::down(d, i, c));
}

proof fn lemma_side_blocks(side: int, most: int, factor: int)
    requires
        0 < side <= jpeg::SIDE_LIMIT,
        1 <= factor <= most,
        jpeg::is_factor(most),
    ensures
        1 <= factor * jpeg::units(side, most) <= 2048,
{
    let u = jpeg::units(side, most);
    if most == 1 {
        assert(u == (side + 7) / 8);
    } else if most == 2 {
        assert(u == (side + 15) / 16);
    } else {
        assert(u == (side + 31) / 32);
    }
    assert(1 <= u && most * u <= 2048);
    assert(1 <= factor * u <= most * u) by (nonlinear_arith)
        requires
            1 <= factor <= most,
            1 <= u,
    ;
}

fn count_before(d: &[u8], i: usize, c: usize) -> (n: usize)
    requires
        jpeg::frame_fits(d@, i as int),
        c <= jpeg::components(d@, i as int),
    ensures
        n == blocks_before(d@, i as int, c as int),
        n <= c * 0x40_0000,
        n <= 0x100_0000,
{
    let mut n: usize = 0;
    for e in 0..c
        invariant
            jpeg::frame_fits(d@, i as int),
            c <= jpeg::components(d@, i as int),
            n == blocks_before(d@, i as int, e as int),
            n <= e * 0x40_0000,
    {
        let a = count_row(d, i, e);
        let b = count_column(d, i, e);
        proof {
            scan::lemma_product(a as int, b as int, 2048, 2048);
        }
        n = n + a * b;
    }
    n
}

fn put_places(
    d: &[u8],
    h: &Vec<usize>,
    i: usize,
    j: usize,
    ac: bool,
    c: usize,
    places: &mut Vec<Place>,
) -> (ok: bool)
    requires
        d@.len() <= scan::FILE_LIMIT,
        jpeg::all_markers(d@, h@),
        jpeg::frame_fits(d@, i as int),
        jpeg::scan_fits(d@, j as int),
        c < d@[j + 4],
        old(places)@.len() <= 48,
        forall|k: int| 0 <= k < old(places)@.len() ==> place_fits(#[trigger] old(places)@[k]),
    ensures
        ok ==> (places_of(d@, h@, i as int, j as int, ac, c as int) matches Some(more)
            && final(places)@ == old(places)@ + more),
        ok ==> old(places)@.len() + 1 <= final(places)@.len() <= old(places)@.len() + 16,
        ok ==> forall|k: int|
            0 <= k < final(places)@.len() ==> place_fits(#[trigger] final(places)@[k]),
        !ok ==> places_of(d@, h@, i as int, j as int, ac, c as int) is None,
{
    let left: usize = d.len() - j;
    assert(left >= 8 + 2 * d@[j + 4]);
    let s: u8 = d[j + 6 + 2 * c];
    let id: u8 = if ac {
        16 + s % 16
    } else {
        s / 16
    };
    let comp = match find_component(d, i, d[j + 5 + 2 * c]) {
        Some(comp) => comp,
        None => {
            return false;
        },
    };
    let table = match find_table(d, h, id) {
        Some(table) => table,
        None => {
            return false;
        },
    };
    if id % 16 > 3 {
        return false;
    }
    let (wide, high): (usize, usize) = if d[j + 4] == 1 {
        (1, 1)
    } else {
        factors(d, i, comp)
    };
    let base = count_before(d, i, comp);
    let stride = count_row(d, i, comp);
    assert(1 <= wide * high <= 16) by (nonlinear_arith)
        requires
            1 <= wide <= 4,
            1 <= high <= 4,
    ;
    let ghost more = places_of(d@, h@, i as int, j as int, ac, c as int)->0;
    let ghost was = places@;
    let count: usize = wide * high;
    assert(more.len() == count);
    assert(places@ =~= was + more.take(0));
    for k in 0..count
        invariant
            count <= 16,
            count == more.len(),
            1 <= wide <= 4,
            comp < 4,
            table <= scan::FILE_LIMIT + 416,
            base <= 0x100_0000,
            stride <= 2048,
            high <= 4,
            was.len() <= 48,
            more == Seq::new(
                count as nat,
                |e: int|
                    Place {
                        comp,
                        table,
                        base,
                        stride,
                        wide,
                        high,
                        dx: (e % wide as int) as usize,
                        dy: (e / wide as int) as usize,
                    },
            ),
            count == wide * high,
            places@ == was + more.take(k as int),
            forall|e: int| 0 <= e < places@.len() ==> place_fits(#[trigger] places@[e]),
    {
        let place = Place { comp, table, base, stride, wide, high, dx: k % wide, dy: k / wide };
        assert(k / wide <= 4) by (nonlinear_arith)
            requires
                k < wide * high,
                1 <= wide <= 4,
                high <= 4,
        ;
        places.push(place);
        assert(more[k as int] == place);
        assert(places@ =~= was + more.take(k + 1));
    }
    assert(more.take(count as int) =~= more);
    true
}

fn get_places(d: &[u8], h: &Vec<usize>, i: usize, j: usize, ac: bool) -> (r: Option<Vec<Place>>)
    requires
        d@.len() <= scan::FILE_LIMIT,
        jpeg::all_markers(d@, h@),
        jpeg::frame_fits(d@, i as int),
        jpeg::scan_fits(d@, j as int),
    ensures
        r is None <==> unit_places(d@, h@, i as int, j as int, ac, d@[j + 4] as int) is None,
        r matches Some(v) ==> {
            &&& unit_places(d@, h@, i as int, j as int, ac, d@[j + 4] as int) == Some(v@)
            &&& 1 <= v@.len() <= 64
            &&& forall|k: int| 0 <= k < v@.len() ==> place_fits(#[trigger] v@[k])
        },
{
    let n: usize = d[j + 4] as usize;
    let mut v: Vec<Place> = Vec::new();
    assert(v@ =~= Seq::<Place>::empty());
    for c in 0..n
        invariant
            d@.len() <= scan::FILE_LIMIT,
            jpeg::all_markers(d@, h@),
            jpeg::frame_fits(d@, i as int),
            jpeg::scan_fits(d@, j as int),
            n == d@[j + 4],
            c <= v@.len() <= 16 * c,
            forall|k: int| 0 <= k < v@.len() ==> place_fits(#[trigger] v@[k]),
            unit_places(d@, h@, i as int, j as int, ac, c as int) == Some(v@),
    {
        if !put_places(d, h, i, j, ac, c, &mut v) {
            proof {
                lemma_no_places(d@, h@, i as int, j as int, ac, c + 1, n as int);
            }
            return None;
        }
    }
    Some(v)
}

proof fn lemma_no_places(d: Seq<u8>, h: Seq<usize>, i: int, j: int, ac: bool, m: int, n: int)
    requires
        unit_places(d, h, i, j, ac, m) is None,
        0 <= m <= n,
    ensures
        unit_places(d, h, i, j, ac, n) is None,
    decreases n - m,
{
    if m < n {
        assert(unit_places(d, h, i, j, ac, m + 1) is None);
        lemma_no_places(d, h, i, j, ac, m + 1, n);
    }
}

fn find_next_scan(d: &[u8], h: &mut Vec<usize>, from: usize) -> (r: Option<Option<usize>>)
    requires
        d@.len() <= scan::FILE_LIMIT,
        jpeg::all_markers(d@, old(h)@),
    ensures
        jpeg::all_markers(d@, final(h)@),
        r is None <==> next_scan(d@, old(h)@, from as int, true) is None,
        r matches Some(None) ==> next_scan(d@, old(h)@, from as int, true) == Some(
            (final(h)@, None::<int>),
        ),
        r matches Some(Some(e)) ==> jpeg::marker_at(d@, e as int) && next_scan(
            d@,
            old(h)@,
            from as int,
            true,
        ) == Some((final(h)@, Some(e as int))),
{
    let mut p: usize = from;
    let mut behind = true;
    loop
        invariant
            d@.len() <= scan::FILE_LIMIT,
            jpeg::all_markers(d@, h@),
            next_scan(d@, old(h)@, from as int, true) == next_scan(d@, h@, p as int, behind),
        decreases usize::MAX - p,
    {
        let e = match find_marker(d, p) {
            Some(e) => e,
            None => {
                if behind {
                    return Some(None);
                }
                return None;
            },
        };
        let m: u8 = d[e + 1];
        if m == jpeg::EOI {
            return Some(None);
        }
        if m == jpeg::SOS {
            return Some(Some(e));
        }
        if !knows(m) {
            return None;
        }
        if jpeg::RST0 <= m && m <= jpeg::RST7 {
            p = e + 2;
        } else {
            if e + 3 >= d.len() || u16_be(d, e + 2) < 2 {
                return None;
            }
            p = end_of_segment(d, e);
            h.push(e);
        }
        behind = false;
    }
}

fn take_scans(
    d: &[u8],
    headers: &Vec<usize>,
    i: usize,
    first: usize,
    sizes: &mut Vec<u16>,
) -> (ok: bool)
    requires
        d@.len() <= scan::FILE_LIMIT,
        jpeg::all_markers(d@, headers@),
        jpeg::frame_fits(d@, i as int),
        jpeg::marker_at(d@, first as int),
        old(sizes)@.len() <= SIZES_LIMIT,
    ensures
        same_len(final(sizes)@, old(sizes)@),
        ok ==> after_scans(d@, headers@, i as int, first as int, 100, old(sizes)@) == Some(
            final(sizes)@,
        ),
        !ok ==> after_scans(d@, headers@, i as int, first as int, 100, old(sizes)@) is None,
{
    let mut h: Vec<usize> = headers.clone();
    assert(h@ =~= headers@);
    let mut j: usize = first;
    let mut n: usize = 100;
    while n > 0
        invariant
            d@.len() <= scan::FILE_LIMIT,
            jpeg::all_markers(d@, h@),
            jpeg::frame_fits(d@, i as int),
            jpeg::marker_at(d@, j as int),
            sizes@.len() <= SIZES_LIMIT,
            same_len(sizes@, old(sizes)@),
            after_scans(d@, headers@, i as int, first as int, 100, old(sizes)@) == after_scans(
                d@,
                h@,
                i as int,
                j as int,
                n as nat,
                sizes@,
            ),
        decreases n,
    {
        if !fits_scan(d, j) {
            return false;
        }
        let pass = match get_pass(d, j) {
            Some(pass) => pass,
            None => {
                return false;
            },
        };
        let places = match get_places(d, &h, i, j, pass.ac) {
            Some(places) => places,
            None => {
                return false;
            },
        };
        let interval = find_interval(d, &h);
        let (x, y) = factors(d, i, 0);
        let alone = d[j + 4] == 1 && d[j + 5] == d[i + 10];
        let cols = count_units(
            u16_be(d, i + 7),
            if alone {
                1
            } else {
                x
            },
        );
        let rows = count_units(
            u16_be(d, i + 5),
            if alone {
                1
            } else {
                y
            },
        );
        proof {
            scan::lemma_product(cols as int, rows as int, 2048, 2048);
        }
        let start: usize = j + 8 + 2 * d[j + 4] as usize;
        let p = match find_last_run(
            d,
            pass,
            &places,
            cols,
            cols * rows,
            start,
            interval,
            sizes,
        ) {
            Some(p) => p,
            None => {
                return false;
            },
        };
        match find_next_scan(d, &mut h, p) {
            None => {
                return false;
            },
            Some(None) => {
                return true;
            },
            Some(Some(e)) => {
                j = e;
            },
        }
        n = n - 1;
    }
    false
}

fn is_block_within(d: &[u8], q: usize, sizes: &Vec<u16>, at: usize) -> (b: bool)
    requires
        q <= scan::FILE_LIMIT,
        at + 64 <= sizes@.len() <= SIZES_LIMIT,
    ensures
        b == (block_sum(d@, q as int, sizes@, at as int, 64) <= scan::BLOCK_LIMIT),
{
    let mut sum: u64 = 0;
    for k in 0..64usize
        invariant
            q <= scan::FILE_LIMIT,
            at + 64 <= sizes@.len() <= SIZES_LIMIT,
            sum == block_sum(d@, q as int, sizes@, at as int, k as int),
            sum <= k * 0x1_0000_0000,
    {
        let step: u32 = get_step(d, q, k);
        proof {
            scan::lemma_product(sizes@[at + k] as int, step as int, 0x1_0000, 0x1_0000);
        }
        sum = sum + sizes[at + k] as u64 * step as u64;
    }
    sum <= scan::BLOCK_LIMIT
}

fn are_blocks_within(d: &[u8], i: usize, q: usize, sizes: &Vec<u16>, c: usize) -> (b: bool)
    requires
        d@.len() <= scan::FILE_LIMIT,
        jpeg::frame_fits(d@, i as int),
        c < jpeg::components(d@, i as int),
        q <= scan::FILE_LIMIT,
        sizes@.len() == 64 * blocks_before(d@, i as int, jpeg::components(d@, i as int) as int),
        sizes@.len() <= SIZES_LIMIT,
    ensures
        b == blocks_within(d@, i as int, q as int, sizes@, c as int),
{
    let from = count_before(d, i, c);
    let to = count_before(d, i, c + 1);
    proof {
        lemma_before_grows(d@, i as int, c + 1, jpeg::components(d@, i as int) as int);
    }
    let mut k: usize = from;
    while k < to
        invariant
            q <= scan::FILE_LIMIT,
            sizes@.len() <= SIZES_LIMIT,
            64 * to <= sizes@.len(),
            from <= k,
            to == blocks_before(d@, i as int, c + 1),
            from == blocks_before(d@, i as int, c as int),
            forall|e: int| from <= e < k ==> #[trigger] block_within(d@, q as int, sizes@, e),
        decreases to - k,
    {
        if !is_block_within(d, q, sizes, 64 * k) {
            assert(!block_within(d@, q as int, sizes@, k as int));
            return false;
        }
        k = k + 1;
    }
    true
}

fn is_component_within(d: &[u8], h: &Vec<usize>, i: usize, sizes: &Vec<u16>, c: usize) -> (b: bool)
    requires
        d@.len() <= scan::FILE_LIMIT,
        jpeg::all_markers(d@, h@),
        jpeg::frame_fits(d@, i as int),
        c < jpeg::components(d@, i as int),
        sizes@.len() == 64 * blocks_before(d@, i as int, jpeg::components(d@, i as int) as int),
        sizes@.len() <= SIZES_LIMIT,
    ensures
        b == component_within(d@, h@, i as int, sizes@, c as int),
{
    let left: usize = d.len() - i;
    assert(left >= 10 + 3 * jpeg::components(d@, i as int));
    match find_quantization(d, h, d[i + 12 + 3 * c]) {
        Some(q) => are_blocks_within(d, i, q, sizes, c),
        None => false,
    }
}

fn is_frame_within(d: &[u8], h: &Vec<usize>, i: usize, sizes: &Vec<u16>) -> (b: bool)
    requires
        d@.len() <= scan::FILE_LIMIT,
        jpeg::all_markers(d@, h@),
        jpeg::frame_fits(d@, i as int),
        sizes@.len() == 64 * blocks_before(d@, i as int, jpeg::components(d@, i as int) as int),
        sizes@.len() <= SIZES_LIMIT,
    ensures
        b == frame_within(d@, h@, i as int, sizes@),
{
    let left: usize = d.len() - i;
    assert(left >= 10);
    let n: usize = d[i + 9] as usize;
    for c in 0..n
        invariant
            d@.len() <= scan::FILE_LIMIT,
            jpeg::all_markers(d@, h@),
            jpeg::frame_fits(d@, i as int),
            n == jpeg::components(d@, i as int),
            sizes@.len() == 64 * blocks_before(d@, i as int, n as int),
            sizes@.len() <= SIZES_LIMIT,
            forall|e: int|
                0 <= e < c ==> #[trigger] component_within(d@, h@, i as int, sizes@, e),
    {
        if !is_component_within(d, h, i, sizes, c) {
            assert(!component_within(d@, h@, i as int, sizes@, c as int));
            return false;
        }
    }
    true
}

proof fn lemma_before_grows(d: Seq<u8>, i: int, m: int, n: int)
    requires
        jpeg::frame_fits(d, i),
        0 <= m <= n <= jpeg::components(d, i),
    ensures
        blocks_before(d, i, m) <= blocks_before(d, i, n),
    decreases n - m,
{
    if m < n {
        lemma_before_grows(d, i, m, n - 1);
        lemma_first_most(d, i, n - 1);
        scan::lemma_product(row_blocks(d, i, n - 1), column_blocks(d, i, n - 1), 2048, 2048);
    }
}

/// Whether the scans of a progressive frame hold what it announces, and every block is
/// within the limit.
pub fn holds_progressive(d: &[u8], h: &Vec<usize>, i: usize, first: usize) -> (b: bool)
    requires
        d@.len() <= scan::FILE_LIMIT,
        jpeg::all_markers(d@, h@),
        jpeg::frame_fits(d@, i as int),
        jpeg::marker_at(d@, first as int),
    ensures
        b == progressive_holds(d@, h@, i as int, first as int),
{
    let left: usize = d.len() - i;
    assert(left >= 10);
    let n: usize = d[i + 9] as usize;
    let blocks = count_before(d, i, n);
    let mut sizes: Vec<u16> = vec![0u16; 64 * blocks];
    assert(sizes@ =~= all_zero(64 * blocks));
    take_scans(d, h, i, first, &mut sizes) && is_frame_within(d, h, i, &sizes)
}

} // verus!
