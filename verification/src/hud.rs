//! Cyberpunk HUD: neon text, glow, scanlines, brackets, bars and stick boxes,
//! rendered onto a `0x00RRGGBB` framebuffer with an embedded 8x8 font.

use crate::cast;
use crate::cast::{as_i32, as_usize};
use crate::color;
use crate::color::{blend, BLACK, WHITE};
use crate::font;
use crate::font::glyph_of;
use crate::raster;
use crate::raster::{Ink, Paint, Picture};
use vstd::prelude::*;

pub use crate::color::{AMBER, CYAN, DARK, GREEN, MAGENTA, RED};

verus! {

/// Opacities of 255: of a scanline, of a bar's track and of its center tick.
pub const SCANLINE_OPACITY: u32 = 60;

pub const TRACK_OPACITY: u32 = 200;

pub const TICK_OPACITY: u32 = 180;

/// Darkens every other row, from the first one on.
pub open spec fn scanline_paint() -> Paint {
    |x: int, y: int, c: u32|
        if y % 2 == 0 {
            color::blended(c, 0, SCANLINE_OPACITY as int)
        } else {
            c
        }
}

spec fn dark_rows(rows: int) -> Paint {
    |x: int, y: int, c: u32|
        if y % 2 == 0 && y < rows {
            color::blended(c, 0, SCANLINE_OPACITY as int)
        } else {
            c
        }
}

/// A bar: the dark track, its first `fill` columns in color, and the center tick.
pub open spec fn with_bar(
    p: Picture,
    x: int,
    y: int,
    w: int,
    h: int,
    fill: int,
    color: u32,
) -> Picture {
    let track = raster::drawn(
        p,
        raster::area(x, y, w, h, raster::glaze(DARK, TRACK_OPACITY as int)),
    );
    let filled = raster::drawn(track, raster::area(x, y, fill, h, raster::solid(color)));
    raster::drawn(
        filled,
        raster::area(x + w / 2, y, 1, h, raster::glaze(CYAN, TICK_OPACITY as int)),
    )
}

/// Opacity of the inner line of the frame, and length of its corner brackets.
pub const FRAME_OPACITY: u32 = 120;

pub const BRACKET_LEN: i32 = 14;

/// One pixel of the double border, by its distance along one axis of length `n`:
/// solid at both ends, tinted next to them.
pub open spec fn edge(at: int, n: int, color: u32, c: u32) -> u32 {
    let outer = if at == 0 || at == n - 1 {
        color
    } else {
        c
    };
    let near = if at == 1 {
        color::blended(outer, color, FRAME_OPACITY as int)
    } else {
        outer
    };
    if at == n - 2 {
        color::blended(near, color, FRAME_OPACITY as int)
    } else {
        near
    }
}

/// The top and bottom border.
pub open spec fn row_edges(h: int, color: u32) -> Paint {
    |x: int, y: int, c: u32| edge(y, h, color, c)
}

/// The left and right border.
pub open spec fn column_edges(w: int, color: u32) -> Paint {
    |x: int, y: int, c: u32| edge(x, w, color, c)
}

spec fn row_edges_upto(h: int, color: u32, end: int) -> Paint {
    |x: int, y: int, c: u32|
        if x < end {
            edge(y, h, color, c)
        } else {
            c
        }
}

spec fn column_edges_upto(w: int, color: u32, end: int) -> Paint {
    |x: int, y: int, c: u32|
        if y < end {
            edge(x, w, color, c)
        } else {
            c
        }
}

/// The `i`th coordinate of a bracket arm that starts at `from`; signed 32-bit steps.
pub open spec fn stepped(from: int, d: int, i: int) -> int {
    cast::wrapped_usize(cast::wrapped_i32(from) + d * i)
}

/// Whether a coordinate is one of the first `n` of a bracket arm.
pub open spec fn on_arm(at: int, from: int, d: int, n: int) -> bool {
    exists|i: int| 0 <= i < n && at == #[trigger] stepped(from, d, i)
}

/// A corner bracket: two arms of `n` pixels from (`cx`, `cy`).
pub open spec fn bracket(cx: int, cy: int, dx: int, dy: int, n: int) -> Paint {
    |x: int, y: int, c: u32|
        if (y == cy && on_arm(x, cx, dx, n)) || (x == cx && on_arm(y, cy, dy, n)) {
            CYAN
        } else {
            c
        }
}

/// The neon frame: the rows, the columns, then a bracket in each corner.
pub open spec fn with_neon_frame(p: Picture, color: u32) -> Picture {
    let (w, h, n) = (p.w as int, p.h as int, BRACKET_LEN as int);
    let edged = raster::drawn(
        raster::drawn(p, row_edges(h, color)),
        column_edges(w, color),
    );
    let top = raster::drawn(
        raster::drawn(edged, bracket(2, 2, 1, 1, n)),
        bracket(w - 3, 2, -1, 1, n),
    );
    raster::drawn(
        raster::drawn(top, bracket(2, h - 3, 1, -1, n)),
        bracket(w - 3, h - 3, -1, -1, n),
    )
}

/// Whether a bracket arm that runs back from `n - 3` stays a signed 32-bit number.
pub open spec fn frame_fits(n: int) -> bool {
    n >= 3 && cast::wrapped_i32(n - 3) - BRACKET_LEN >= i32::MIN - 1
}

/// Whether the far corner of `n` characters at that scale can be counted.
pub open spec fn text_fits(x: int, y: int, n: nat, scale: int) -> bool {
    &&& x + (8 * n) * scale <= usize::MAX
    &&& n > 0 ==> y + 8 * scale <= usize::MAX
}

/// Opacities of a text's bloom and outline, and how much its core is brightened.
pub const BLOOM_OPACITY: u32 = 45;

pub const OUTLINE_OPACITY: u32 = 255;

pub const CORE_BRIGHTNESS: u32 = 70;

/// A coordinate moved by `o` dots of `scale` pixels, in signed 32-bit arithmetic,
/// and held at zero.
pub open spec fn shifted(at: int, o: int, scale: int) -> int {
    let v = cast::wrapped_i32(at) + o * cast::wrapped_i32(scale);
    if v < 0 {
        0
    } else {
        v
    }
}

/// Whether a coordinate can be moved by up to two dots either way.
pub open spec fn shift_fits(at: int, scale: int) -> bool {
    let (v, s) = (cast::wrapped_i32(at), cast::wrapped_i32(scale));
    &&& i32::MIN <= 2 * s <= i32::MAX
    &&& i32::MIN <= -2 * s <= i32::MAX
    &&& i32::MIN <= v + 2 * s <= i32::MAX
    &&& i32::MIN <= v - 2 * s <= i32::MAX
}

/// Whether glowing text can be drawn there: every move of it stays countable.
pub open spec fn glow_fits(x: int, y: int, n: nat, scale: int) -> bool {
    &&& shift_fits(x, scale)
    &&& shift_fits(y, scale)
    &&& text_fits(x, y, n, scale)
    &&& forall|o: int, q: int|
        -2 <= o <= 2 && -2 <= q <= 2 ==> text_fits(
            #[trigger] shifted(x, o, scale),
            #[trigger] shifted(y, q, scale),
            n,
            scale,
        )
}

/// The four moves of the bloom, two dots out.
pub open spec fn bloom_moves() -> Seq<(i32, i32)> {
    seq![(0i32, -2i32), (0i32, 2i32), (-2i32, 0i32), (2i32, 0i32)]
}

/// The eight moves of the outline, to every neighbour.
pub open spec fn outline_moves() -> Seq<(i32, i32)> {
    seq![
        (-1i32, -1i32),
        (0i32, -1i32),
        (1i32, -1i32),
        (-1i32, 0i32),
        (1i32, 0i32),
        (-1i32, 1i32),
        (0i32, 1i32),
        (1i32, 1i32),
    ]
}

/// The text drawn once for every move.
pub open spec fn with_moves(
    p: Picture,
    text: Seq<char>,
    x: int,
    y: int,
    scale: int,
    ink: Ink,
    moves: Seq<(i32, i32)>,
) -> Picture
    decreases moves.len(),
{
    if moves.len() == 0 {
        p
    } else {
        let (ox, oy) = moves.last();
        raster::drawn(
            with_moves(p, text, x, y, scale, ink, moves.drop_last()),
            font::text_paint(
                text,
                shifted(x, ox as int, scale),
                shifted(y, oy as int, scale),
                scale,
                ink,
            ),
        )
    }
}

/// Glowing text: the bloom, the outline, then the brightened core.
pub open spec fn with_glow_text(
    p: Picture,
    x: int,
    y: int,
    text: Seq<char>,
    color: u32,
    scale: int,
) -> Picture {
    let bloom = raster::glaze(color, BLOOM_OPACITY as int);
    let outline = raster::glaze(BLACK, OUTLINE_OPACITY as int);
    let core = color::blended(color, WHITE, CORE_BRIGHTNESS as int);
    let bloomed = with_moves(p, text, x, y, scale, bloom, bloom_moves());
    let outlined = with_moves(bloomed, text, x, y, scale, outline, outline_moves());
    raster::drawn(
        outlined,
        font::text_paint(text, x, y, scale, raster::glaze(core, 255)),
    )
}

fn shift(at: usize, o: i32, scale: usize) -> (r: usize)
    requires
        -2 <= o <= 2,
        shift_fits(at as int, scale as int),
    ensures
        r == shifted(at as int, o as int, scale as int),
{
    let (v, s) = (as_i32(at), as_i32(scale));
    assert(-2 * s <= o * s <= 2 * s || 2 * s <= o * s <= -2 * s) by (nonlinear_arith)
        requires
            -2 <= o <= 2,
    ;
    let moved = v + o * s;
    if moved < 0 {
        0
    } else {
        moved as usize
    }
}

/// How much of its color the outline of a stick box loses, and its crosshair.
pub const BOX_SHADE: u32 = 80;

pub const CROSS_SHADE: u32 = 160;

/// Where along a side of length `size` a stick position lies.
pub open spec fn stick_offset(value: int, size: int) -> int {
    value * size / 255
}

/// The center of the stick's dot, in signed 32-bit arithmetic: left to right, and
/// top to bottom for 255 down to 0.
pub open spec fn stick_center(x: int, y: int, size: int, ax: u8, ay: u8) -> (int, int) {
    (
        cast::wrapped_i32(x + stick_offset(ax as int, size)),
        cast::wrapped_i32(y + stick_offset(255 - ay as int, size)),
    )
}

/// Whether a stick box can be drawn there.
pub open spec fn stick_fits(x: int, y: int, size: int, ax: u8, ay: u8) -> bool {
    let (cx, cy) = stick_center(x, y, size, ax, ay);
    &&& x + size <= usize::MAX
    &&& y + size <= usize::MAX
    &&& ax * size <= usize::MAX
    &&& (255 - ay) * size <= usize::MAX
    &&& i32::MIN < cx < i32::MAX
    &&& cx >= -1 ==> i32::MIN < cy < i32::MAX
}

/// A stick box: four sides, a faint crosshair, and the dot, three pixels wide.
pub open spec fn with_stick_box(
    p: Picture,
    x: int,
    y: int,
    size: int,
    ax: u8,
    ay: u8,
    color: u32,
) -> Picture {
    let side = raster::solid(color::blended(color, 0, BOX_SHADE as int));
    let cross = raster::solid(color::blended(color, 0, CROSS_SHADE as int));
    let (cx, cy) = stick_center(x, y, size, ax, ay);
    let rows = raster::drawn(
        raster::drawn(p, raster::area(x, y, size, 1, side)),
        raster::area(x, y + size, size, 1, side),
    );
    let sides = raster::drawn(
        raster::drawn(rows, raster::area(x, y, 1, size, side)),
        raster::area(x + size, y, 1, size, side),
    );
    let crossed = raster::drawn(
        raster::drawn(sides, raster::area(x, y + size / 2, size, 1, cross)),
        raster::area(x + size / 2, y, 1, size, cross),
    );
    raster::drawn(crossed, raster::area(cx - 1, cy - 1, 3, 3, raster::solid(color)))
}

/// A borrowed RGB framebuffer with cyberpunk drawing primitives.
pub struct Canvas<'a> {
    pub buf: &'a mut [u32],
    pub w: usize,
    pub h: usize,
}

impl<'a> View for Canvas<'a> {
    type V = Picture;

    open spec fn view(&self) -> Picture {
        Picture { w: self.w as nat, h: self.h as nat, px: self.buf@ }
    }
}

impl<'a> Canvas<'a> {
    /// The buffer holds every row.
    pub open spec fn wf(&self) -> bool {
        self.w * self.h <= self.buf.len()
    }

    fn put(&mut self, x: usize, y: usize, color: u32)
        requires
            old(self).wf(),
        ensures
            final(self).wf(),
            final(self).w == old(self).w,
            final(self).h == old(self).h,
            final(self)@ == raster::drawn(
                old(self)@,
                raster::area(x as int, y as int, 1, 1, raster::solid(color)),
            ),
            final(final(self).buf)@ == final(old(self).buf)@,
    {
        let ghost was = self@;
        let ghost f = raster::area(x as int, y as int, 1, 1, raster::solid(color));
        if x < self.w && y < self.h {
            proof {
                raster::lemma_index(x as int, y as int, self.w as int, self.h as int);
            }
            self.buf[y * self.w + x] = color;
            proof {
                raster::lemma_set_pixel(was, x as int, y as int, color, f);
            }
        } else {
            proof {
                raster::lemma_untouched(was, f);
            }
        }
    }

    fn blend_px(&mut self, x: usize, y: usize, color: u32, a: u32)
        requires
            old(self).wf(),
            x < old(self).w && y < old(self).h ==> a <= 255,
        ensures
            final(self).wf(),
            final(self).w == old(self).w,
            final(self).h == old(self).h,
            final(self)@ == raster::drawn(
                old(self)@,
                raster::area(x as int, y as int, 1, 1, raster::glaze(color, a as int)),
            ),
            final(final(self).buf)@ == final(old(self).buf)@,
    {
        let ghost was = self@;
        let ghost f = raster::area(x as int, y as int, 1, 1, raster::glaze(color, a as int));
        if x < self.w && y < self.h {
            proof {
                raster::lemma_index(x as int, y as int, self.w as int, self.h as int);
            }
            let i = y * self.w + x;
            let mixed = blend(self.buf[i], color, a);
            self.buf[i] = mixed;
            proof {
                raster::lemma_set_pixel(was, x as int, y as int, mixed, f);
            }
        } else {
            proof {
                raster::lemma_untouched(was, f);
            }
        }
    }

    /// Whether the far corner of a rectangle can be counted.
    pub open spec fn countable(x: usize, y: usize, w: usize, h: usize) -> bool {
        &&& y + h <= usize::MAX
        &&& h > 0 ==> x + w <= usize::MAX
    }

    /// Whether any pixel of a rectangle lies on the canvas.
    pub open spec fn shows(&self, x: usize, y: usize, w: usize, h: usize) -> bool {
        w > 0 && h > 0 && x < self.w && y < self.h
    }

    fn blend_rect(&mut self, x: usize, y: usize, w: usize, h: usize, color: u32, a: u32)
        requires
            old(self).wf(),
            Self::countable(x, y, w, h),
            old(self).shows(x, y, w, h) ==> a <= 255,
        ensures
            final(self).wf(),
            final(self).w == old(self).w,
            final(self).h == old(self).h,
            final(self)@ == raster::drawn(
                old(self)@,
                raster::area(
                    x as int,
                    y as int,
                    w as int,
                    h as int,
                    raster::glaze(color, a as int),
                ),
            ),
            final(final(self).buf)@ == final(old(self).buf)@,
    {
        let ghost p = self@;
        let ghost ink = raster::glaze(color, a as int);
        let ghost (gx, gy, gw, gh) = (x as int, y as int, w as int, h as int);
        proof {
            raster::lemma_sweep_starts(p, gx, gy, gw, ink);
        }
        for yy in y..(y + h)
            invariant
                self.wf(),
                p == old(self)@,
                self.w == old(self).w,
                self.h == old(self).h,
                Self::countable(x, y, w, h),
                old(self).shows(x, y, w, h) ==> a <= 255,
                ink == raster::glaze(color, a as int),
                (gx, gy, gw, gh) == (x as int, y as int, w as int, h as int),
                self@ == raster::drawn(p, raster::swept(gx, gy, gw, yy - y, 0, ink)),
                final(self.buf)@ == final(old(self).buf)@,
        {
            for xx in x..(x + w)
                invariant
                    self.wf(),
                    p == old(self)@,
                    self.w == old(self).w,
                    self.h == old(self).h,
                    y <= yy < y + h,
                    old(self).shows(x, y, w, h) ==> a <= 255,
                    ink == raster::glaze(color, a as int),
                    (gx, gy, gw, gh) == (x as int, y as int, w as int, h as int),
                    self@ == raster::drawn(p, raster::swept(gx, gy, gw, yy - y, xx - x, ink)),
                    final(self.buf)@ == final(old(self).buf)@,
            {
                self.blend_px(xx, yy, color, a);
                proof {
                    raster::lemma_sweep_step(p, gx, gy, gw, yy - y, xx - x, ink);
                }
            }
            proof {
                raster::lemma_sweep_row(p, gx, gy, gw, yy - y, ink);
            }
        }
        proof {
            raster::lemma_sweep_ends(p, gx, gy, gw, gh, ink);
        }
    }

    /// CRT scanlines: darkens every other row.
    pub fn scanlines(&mut self)
        requires
            old(self).wf(),
        ensures
            final(self).wf(),
            final(self).w == old(self).w,
            final(self).h == old(self).h,
            final(self)@ == raster::drawn(
                old(self)@,
                scanline_paint(),
            ),
            final(final(self).buf)@ == final(old(self).buf)@,
    {
        let ghost p = self@;
        proof {
            raster::lemma_untouched(p, dark_rows(0));
        }
        let rows: usize = self.h / 2 + self.h % 2;
        for k in 0..rows
            invariant
                self.wf(),
                p == old(self)@,
                self.w == old(self).w,
                self.h == old(self).h,
                rows == self.h / 2 + self.h % 2,
                self@ == raster::drawn(p, dark_rows(2 * k)),
                final(self.buf)@ == final(old(self).buf)@,
        {
            let w = self.w;
            self.blend_rect(0, 2 * k, w, 1, 0, SCANLINE_OPACITY);
            proof {
                raster::lemma_then(
                    p,
                    dark_rows(2 * k),
                    raster::area(
                        0,
                        2 * k,
                        w as int,
                        1,
                        raster::glaze(0, SCANLINE_OPACITY as int),
                    ),
                    dark_rows(2 * (k + 1)),
                );
            }
        }
        proof {
            raster::lemma_same_paint(p, dark_rows(2 * rows), scanline_paint());
        }
    }

    /// Translucent dark panel for HUD readability.
    pub fn panel(&mut self, x: usize, y: usize, w: usize, h: usize, a: u32)
        requires
            old(self).wf(),
            Self::countable(x, y, w, h),
            old(self).shows(x, y, w, h) ==> a <= 255,
        ensures
            final(self).wf(),
            final(self).w == old(self).w,
            final(self).h == old(self).h,
            final(self)@ == raster::drawn(
                old(self)@,
                raster::area(x as int, y as int, w as int, h as int, raster::glaze(DARK, a as int)),
            ),
            final(final(self).buf)@ == final(old(self).buf)@,
    {
        self.blend_rect(x, y, w, h, DARK, a);
    }

    /// Filled rectangle.
    pub fn fill(&mut self, x: usize, y: usize, w: usize, h: usize, color: u32)
        requires
            old(self).wf(),
            Self::countable(x, y, w, h),
        ensures
            final(self).wf(),
            final(self).w == old(self).w,
            final(self).h == old(self).h,
            final(self)@ == raster::drawn(
                old(self)@,
                raster::area(x as int, y as int, w as int, h as int, raster::solid(color)),
            ),
            final(final(self).buf)@ == final(old(self).buf)@,
    {
        let ghost p = self@;
        let ghost ink = raster::solid(color);
        let ghost (gx, gy, gw, gh) = (x as int, y as int, w as int, h as int);
        proof {
            raster::lemma_sweep_starts(p, gx, gy, gw, ink);
        }
        for yy in y..(y + h)
            invariant
                self.wf(),
                p == old(self)@,
                Self::countable(x, y, w, h),
                ink == raster::solid(color),
                (gx, gy, gw, gh) == (x as int, y as int, w as int, h as int),
                self@ == raster::drawn(p, raster::swept(gx, gy, gw, yy - y, 0, ink)),
                final(self.buf)@ == final(old(self).buf)@,
        {
            for xx in x..(x + w)
                invariant
                    self.wf(),
                    p == old(self)@,
                    y <= yy < y + h,
                    ink == raster::solid(color),
                    (gx, gy, gw, gh) == (x as int, y as int, w as int, h as int),
                    self@ == raster::drawn(p, raster::swept(gx, gy, gw, yy - y, xx - x, ink)),
                    final(self.buf)@ == final(old(self).buf)@,
            {
                self.put(xx, yy, color);
                proof {
                    raster::lemma_sweep_step(p, gx, gy, gw, yy - y, xx - x, ink);
                }
            }
            proof {
                raster::lemma_sweep_row(p, gx, gy, gw, yy - y, ink);
            }
        }
        proof {
            raster::lemma_sweep_ends(p, gx, gy, gw, gh, ink);
        }
    }

    /// Horizontal line.
    pub fn hline(&mut self, x: usize, y: usize, len: usize, color: u32)
        requires
            old(self).wf(),
            x + len - 1 <= usize::MAX,
        ensures
            final(self).wf(),
            final(self).w == old(self).w,
            final(self).h == old(self).h,
            final(self)@ == raster::drawn(
                old(self)@,
                raster::area(x as int, y as int, len as int, 1, raster::solid(color)),
            ),
            final(final(self).buf)@ == final(old(self).buf)@,
    {
        let ghost p = self@;
        let ghost ink = raster::solid(color);
        let ghost (gx, gy, n) = (x as int, y as int, len as int);
        proof {
            raster::lemma_sweep_starts(p, gx, gy, n, ink);
        }
        for i in 0..len
            invariant
                self.wf(),
                p == old(self)@,
                x + len - 1 <= usize::MAX,
                ink == raster::solid(color),
                (gx, gy, n) == (x as int, y as int, len as int),
                self@ == raster::drawn(p, raster::swept(gx, gy, n, 0, i as int, ink)),
                final(self.buf)@ == final(old(self).buf)@,
        {
            self.put(x + i, y, color);
            proof {
                raster::lemma_sweep_step(p, gx, gy, n, 0, i as int, ink);
            }
        }
        proof {
            raster::lemma_sweep_row(p, gx, gy, n, 0, ink);
            raster::lemma_sweep_ends(p, gx, gy, n, 1, ink);
        }
    }

    /// Vertical line.
    pub fn vline(&mut self, x: usize, y: usize, len: usize, color: u32)
        requires
            old(self).wf(),
            y + len - 1 <= usize::MAX,
        ensures
            final(self).wf(),
            final(self).w == old(self).w,
            final(self).h == old(self).h,
            final(self)@ == raster::drawn(
                old(self)@,
                raster::area(x as int, y as int, 1, len as int, raster::solid(color)),
            ),
            final(final(self).buf)@ == final(old(self).buf)@,
    {
        let ghost p = self@;
        let ghost ink = raster::solid(color);
        let ghost (gx, gy, n) = (x as int, y as int, len as int);
        proof {
            raster::lemma_sweep_starts(p, gx, gy, 1, ink);
        }
        for i in 0..len
            invariant
                self.wf(),
                p == old(self)@,
                y + len - 1 <= usize::MAX,
                ink == raster::solid(color),
                (gx, gy, n) == (x as int, y as int, len as int),
                self@ == raster::drawn(p, raster::swept(gx, gy, 1, i as int, 0, ink)),
                final(self.buf)@ == final(old(self).buf)@,
        {
            self.put(x, y + i, color);
            proof {
                raster::lemma_sweep_step(p, gx, gy, 1, i as int, 0, ink);
                raster::lemma_sweep_row(p, gx, gy, 1, i as int, ink);
            }
        }
        proof {
            raster::lemma_sweep_ends(p, gx, gy, 1, n, ink);
        }
    }

    fn blend_column(&mut self, x: usize, y: usize, len: usize, color: u32, a: u32)
        requires
            old(self).wf(),
            y + len <= usize::MAX,
            a <= 255,
        ensures
            final(self).wf(),
            final(self).w == old(self).w,
            final(self).h == old(self).h,
            final(self)@ == raster::drawn(
                old(self)@,
                raster::area(x as int, y as int, 1, len as int, raster::glaze(color, a as int)),
            ),
            final(final(self).buf)@ == final(old(self).buf)@,
    {
        let ghost p = self@;
        let ghost ink = raster::glaze(color, a as int);
        let ghost (gx, gy, n) = (x as int, y as int, len as int);
        proof {
            raster::lemma_sweep_starts(p, gx, gy, 1, ink);
        }
        for yy in y..(y + len)
            invariant
                self.wf(),
                p == old(self)@,
                a <= 255,
                ink == raster::glaze(color, a as int),
                (gx, gy, n) == (x as int, y as int, len as int),
                self@ == raster::drawn(p, raster::swept(gx, gy, 1, yy - y, 0, ink)),
                final(self.buf)@ == final(old(self).buf)@,
        {
            self.blend_px(x, yy, color, a);
            proof {
                raster::lemma_sweep_step(p, gx, gy, 1, yy - y, 0, ink);
                raster::lemma_sweep_row(p, gx, gy, 1, yy - y, ink);
            }
        }
        proof {
            raster::lemma_sweep_ends(p, gx, gy, 1, n, ink);
        }
    }

    /// Horizontal neon bar: dark track with its first `fill` columns filled, and a
    /// center tick (useful for centered axes like throttle).
    pub fn bar(&mut self, x: usize, y: usize, w: usize, h: usize, fill: usize, color: u32)
        requires
            old(self).wf(),
            Self::countable(x, y, w, h),
            Self::countable(x, y, fill, h),
        ensures
            final(self).wf(),
            final(self).w == old(self).w,
            final(self).h == old(self).h,
            final(self)@ == with_bar(
                old(self)@,
                x as int,
                y as int,
                w as int,
                h as int,
                fill as int,
                color,
            ),
            final(final(self).buf)@ == final(old(self).buf)@,
    {
        self.blend_rect(x, y, w, h, DARK, TRACK_OPACITY);
        self.fill(x, y, fill, h, color);
        if h > 0 {
            self.blend_column(x + w / 2, y, h, CYAN, TICK_OPACITY);
        } else {
            proof {
                raster::lemma_untouched(
                    self@,
                    raster::area(
                        x + w as int / 2,
                        y as int,
                        1,
                        h as int,
                        raster::glaze(CYAN, TICK_OPACITY as int),
                    ),
                );
            }
        }
    }

    fn corner(&mut self, cx: usize, cy: usize, dx: i32, dy: i32)
        requires
            old(self).wf(),
            dx == 1 || dx == -1,
            dy == 1 || dy == -1,
            dx == 1 ==> cx == 2,
            dy == 1 ==> cy == 2,
            dx == -1 ==> cast::wrapped_i32(cx as int) - BRACKET_LEN >= i32::MIN - 1,
            dy == -1 ==> cast::wrapped_i32(cy as int) - BRACKET_LEN >= i32::MIN - 1,
        ensures
            final(self).wf(),
            final(self).w == old(self).w,
            final(self).h == old(self).h,
            final(self)@ == raster::drawn(
                old(self)@,
                bracket(cx as int, cy as int, dx as int, dy as int, BRACKET_LEN as int),
            ),
            final(final(self).buf)@ == final(old(self).buf)@,
    {
        let ghost p = self@;
        let ghost (gx, gy, ex, ey) = (cx as int, cy as int, dx as int, dy as int);
        proof {
            raster::lemma_untouched(p, bracket(gx, gy, ex, ey, 0));
        }
        for i in 0..BRACKET_LEN
            invariant
                self.wf(),
                p == old(self)@,
                (gx, gy, ex, ey) == (cx as int, cy as int, dx as int, dy as int),
                dx == 1 || dx == -1,
                dy == 1 || dy == -1,
                dx == 1 ==> cx == 2,
                dy == 1 ==> cy == 2,
                dx == -1 ==> cast::wrapped_i32(cx as int) - BRACKET_LEN >= i32::MIN - 1,
                dy == -1 ==> cast::wrapped_i32(cy as int) - BRACKET_LEN >= i32::MIN - 1,
                self@ == raster::drawn(p, bracket(gx, gy, ex, ey, i as int)),
                final(self.buf)@ == final(old(self).buf)@,
        {
            let sx: i32 = if dx == 1 {
                i
            } else {
                -i
            };
            let sy: i32 = if dy == 1 {
                i
            } else {
                -i
            };
            let ax = as_usize(as_i32(cx) + sx);
            let ay = as_usize(as_i32(cy) + sy);
            assert(ax == stepped(gx, ex, i as int));
            assert(ay == stepped(gy, ey, i as int));
            self.put(ax, cy, CYAN);
            self.put(cx, ay, CYAN);
            proof {
                let f = bracket(gx, gy, ex, ey, i as int);
                let g = bracket(gx, gy, ex, ey, i + 1);
                let a = raster::area(ax as int, gy, 1, 1, raster::solid(CYAN));
                let b = raster::area(gx, ay as int, 1, 1, raster::solid(CYAN));
                lemma_arm(gx, ex, i as int);
                lemma_arm(gy, ey, i as int);
                raster::lemma_over(p, f, a);
                raster::lemma_then(p, raster::over(f, a), b, g);
            }
        }
    }

    /// Neon double border with cyan corner brackets; `color` tints the inner line.
    pub fn neon_frame(&mut self, color: u32)
        requires
            old(self).wf(),
            frame_fits(old(self).w as int),
            frame_fits(old(self).h as int),
        ensures
            final(self).wf(),
            final(self).w == old(self).w,
            final(self).h == old(self).h,
            final(self)@ == with_neon_frame(old(self)@, color),
            final(final(self).buf)@ == final(old(self).buf)@,
    {
        let (w, h) = (self.w, self.h);
        let ghost p = self@;
        let ghost (gw, gh) = (w as int, h as int);
        let ghost tint = raster::glaze(color, FRAME_OPACITY as int);
        let ghost line = raster::solid(color);
        proof {
            raster::lemma_untouched(p, row_edges_upto(gh, color, 0));
        }
        for x in 0..w
            invariant
                self.wf(),
                p == old(self)@,
                (gw, gh) == (w as int, h as int),
                p.w == w,
                p.h == h,
                h >= 3,
                tint == raster::glaze(color, FRAME_OPACITY as int),
                line == raster::solid(color),
                self@ == raster::drawn(p, row_edges_upto(gh, color, x as int)),
                final(self.buf)@ == final(old(self).buf)@,
        {
            self.put(x, 0, color);
            self.put(x, h - 1, color);
            self.blend_px(x, 1, color, FRAME_OPACITY);
            self.blend_px(x, h - 2, color, FRAME_OPACITY);
            proof {
                raster::lemma_then_four(
                    p,
                    row_edges_upto(gh, color, x as int),
                    raster::area(x as int, 0, 1, 1, line),
                    raster::area(x as int, gh - 1, 1, 1, line),
                    raster::area(x as int, 1, 1, 1, tint),
                    raster::area(x as int, gh - 2, 1, 1, tint),
                    row_edges_upto(gh, color, x + 1),
                );
            }
        }
        let ghost q = self@;
        proof {
            raster::lemma_same_paint(p, row_edges_upto(gh, color, gw), row_edges(gh, color));
            raster::lemma_untouched(q, column_edges_upto(gw, color, 0));
        }
        for y in 0..h
            invariant
                self.wf(),
                (gw, gh) == (w as int, h as int),
                q.w == w,
                q.h == h,
                w >= 3,
                tint == raster::glaze(color, FRAME_OPACITY as int),
                line == raster::solid(color),
                self@ == raster::drawn(q, column_edges_upto(gw, color, y as int)),
                final(self.buf)@ == final(old(self).buf)@,
        {
            self.put(0, y, color);
            self.put(w - 1, y, color);
            self.blend_px(1, y, color, FRAME_OPACITY);
            self.blend_px(w - 2, y, color, FRAME_OPACITY);
            proof {
                raster::lemma_then_four(
                    q,
                    column_edges_upto(gw, color, y as int),
                    raster::area(0, y as int, 1, 1, line),
                    raster::area(gw - 1, y as int, 1, 1, line),
                    raster::area(1, y as int, 1, 1, tint),
                    raster::area(gw - 2, y as int, 1, 1, tint),
                    column_edges_upto(gw, color, y + 1),
                );
            }
        }
        proof {
            raster::lemma_same_paint(q, column_edges_upto(gw, color, gh), column_edges(gw, color));
        }
        // corner brackets
        self.corner(2, 2, 1, 1);
        self.corner(w - 3, 2, -1, 1);
        self.corner(2, h - 3, 1, -1);
        self.corner(w - 3, h - 3, -1, -1);
    }

    /// Draws a bitmap, each set dot a square of `scale` pixels.
    pub fn glyph(&mut self, x: usize, y: usize, rows: [u8; 8], color: u32, scale: usize, a: u32)
        requires
            old(self).wf(),
            x + 8 * scale <= usize::MAX,
            y + 8 * scale <= usize::MAX,
            a <= 255,
        ensures
            final(self).wf(),
            final(self).w == old(self).w,
            final(self).h == old(self).h,
            final(self)@ == raster::drawn(
                old(self)@,
                font::glyph_paint(
                    rows@,
                    x as int,
                    y as int,
                    scale as int,
                    raster::glaze(color, a as int),
                ),
            ),
            final(final(self).buf)@ == final(old(self).buf)@,
    {
        let ghost p = self@;
        let ghost ink = raster::glaze(color, a as int);
        let ghost (gx, gy, gs) = (x as int, y as int, scale as int);
        proof {
            font::lemma_glyph_starts(p, rows@, gx, gy, gs, ink);
        }
        for row in 0..8usize
            invariant
                self.wf(),
                p == old(self)@,
                (gx, gy, gs) == (x as int, y as int, scale as int),
                x + 8 * scale <= usize::MAX,
                y + 8 * scale <= usize::MAX,
                a <= 255,
                ink == raster::glaze(color, a as int),
                self@ == raster::drawn(
                    p,
                    font::glyph_upto(rows@, gx, gy, gs, ink, row as int, 0),
                ),
                final(self.buf)@ == final(old(self).buf)@,
        {
            let bits: u8 = rows[row];
            for col in 0..8usize
                invariant
                    self.wf(),
                    p == old(self)@,
                    (gx, gy, gs) == (x as int, y as int, scale as int),
                    x + 8 * scale <= usize::MAX,
                    y + 8 * scale <= usize::MAX,
                    a <= 255,
                    ink == raster::glaze(color, a as int),
                    0 <= row < 8,
                    bits == rows@[row as int],
                    self@ == raster::drawn(
                        p,
                        font::glyph_upto(rows@, gx, gy, gs, ink, row as int, col as int),
                    ),
                    final(self.buf)@ == final(old(self).buf)@,
            {
                proof {
                    font::lemma_glyph_step(
                        p,
                        rows@,
                        gx,
                        gy,
                        gs,
                        ink,
                        row as int,
                        col as int,
                    );
                }
                if bits & (1u8 << col) != 0 {
                    assert(0 <= col * scale <= 8 * scale - scale) by (nonlinear_arith)
                        requires
                            0 <= col < 8,
                            0 <= scale,
                    ;
                    assert(0 <= row * scale <= 8 * scale - scale) by (nonlinear_arith)
                        requires
                            0 <= row < 8,
                            0 <= scale,
                    ;
                    self.blend_rect(x + col * scale, y + row * scale, scale, scale, color, a);
                }
            }
            proof {
                font::lemma_glyph_row(p, rows@, gx, gy, gs, ink, row as int);
            }
        }
        proof {
            font::lemma_glyph_ends(p, rows@, gx, gy, gs, ink);
        }
    }

    fn text_raw(&mut self, x: usize, y: usize, text: &str, color: u32, scale: usize, a: u32)
        requires
            old(self).wf(),
            text_fits(x as int, y as int, text@.len(), scale as int),
            a <= 255,
        ensures
            final(self).wf(),
            final(self).w == old(self).w,
            final(self).h == old(self).h,
            final(self)@ == raster::drawn(
                old(self)@,
                font::text_paint(
                    text@,
                    x as int,
                    y as int,
                    scale as int,
                    raster::glaze(color, a as int),
                ),
            ),
            final(final(self).buf)@ == final(old(self).buf)@,
    {
        let ghost p = self@;
        let ghost ink = raster::glaze(color, a as int);
        let ghost (gx, gy, gs) = (x as int, y as int, scale as int);
        let ghost n = text@.len();
        proof {
            font::lemma_text_starts(p, text@, gx, gy, gs, ink);
        }
        let mut cx: usize = x;
        assert((8 * 0int) * scale == 0) by (nonlinear_arith);
        for c in it: text.chars()
            invariant
                self.wf(),
                p == old(self)@,
                (gx, gy, gs) == (x as int, y as int, scale as int),
                n == text@.len(),
                text_fits(gx, gy, n, gs),
                a <= 255,
                ink == raster::glaze(color, a as int),
                it.seq() == text@,
                cx == x + (8 * it.index()) * scale,
                self@ == raster::drawn(
                    p,
                    font::text_paint(text@.take(it.index()), gx, gy, gs, ink),
                ),
                final(self.buf)@ == final(old(self).buf)@,
        {
            let ghost k = it.index();
            proof {
                font::lemma_text_step(p, text@, gx, gy, gs, ink, k);
                assert((8 * k) * scale + 8 * scale == (8 * (k + 1)) * scale) by (nonlinear_arith);
                assert((8 * (k + 1)) * scale <= (8 * n) * scale) by (nonlinear_arith)
                    requires
                        k + 1 <= n,
                        0 <= scale,
                ;
            }
            if let Some(rows) = glyph_of(c) {
                self.glyph(cx, y, rows, color, scale, a);
            }
            cx = cx + 8 * scale;  // leave room for the glyph outline
        }
        proof {
            assert(text@.take(n as int) =~= text@);
        }
    }

    fn text_moves(
        &mut self,
        x: usize,
        y: usize,
        text: &str,
        color: u32,
        scale: usize,
        a: u32,
        moves: &[(i32, i32)],
    )
        requires
            old(self).wf(),
            glow_fits(x as int, y as int, text@.len(), scale as int),
            a <= 255,
            forall|i: int|
                0 <= i < moves@.len() ==> -2 <= (#[trigger] moves@[i]).0 <= 2 && -2 <= moves@[i].1
                    <= 2,
        ensures
            final(self).wf(),
            final(self).w == old(self).w,
            final(self).h == old(self).h,
            final(self)@ == with_moves(
                old(self)@,
                text@,
                x as int,
                y as int,
                scale as int,
                raster::glaze(color, a as int),
                moves@,
            ),
            final(final(self).buf)@ == final(old(self).buf)@,
    {
        let ghost ink = raster::glaze(color, a as int);
        for i in 0..moves.len()
            invariant
                self.wf(),
                self.w == old(self).w,
                self.h == old(self).h,
                glow_fits(x as int, y as int, text@.len(), scale as int),
                a <= 255,
                ink == raster::glaze(color, a as int),
                forall|i: int|
                    0 <= i < moves@.len() ==> -2 <= (#[trigger] moves@[i]).0 <= 2 && -2
                        <= moves@[i].1 <= 2,
                self@ == with_moves(
                    old(self)@,
                    text@,
                    x as int,
                    y as int,
                    scale as int,
                    ink,
                    moves@.take(i as int),
                ),
                final(self.buf)@ == final(old(self).buf)@,
        {
            let (ox, oy) = moves[i];
            self.text_raw(shift(x, ox, scale), shift(y, oy, scale), text, color, scale, a);
            proof {
                assert(moves@.take(i + 1).drop_last() =~= moves@.take(i as int));
            }
        }
        proof {
            assert(moves@.take(moves@.len() as int) =~= moves@);
        }
    }

    /// High-contrast neon text: an outer colored glow, a solid black outline for
    /// legibility on any background, then a bright core.
    pub fn glow_text(&mut self, x: usize, y: usize, text: &str, color: u32, scale: usize)
        requires
            old(self).wf(),
            glow_fits(x as int, y as int, text@.len(), scale as int),
        ensures
            final(self).wf(),
            final(self).w == old(self).w,
            final(self).h == old(self).h,
            final(self)@ == with_glow_text(
                old(self)@,
                x as int,
                y as int,
                text@,
                color,
                scale as int,
            ),
            final(final(self).buf)@ == final(old(self).buf)@,
    {
        // outer colored bloom (radius 2)
        let bloom: [(i32, i32); 4] = [(0, -2), (0, 2), (-2, 0), (2, 0)];
        assert(bloom@ =~= bloom_moves());
        self.text_moves(x, y, text, color, scale, BLOOM_OPACITY, &bloom);
        // solid black outline (8-neighbour, radius 1): this is what makes it readable
        let outline: [(i32, i32); 8] = [
            (-1, -1),
            (0, -1),
            (1, -1),
            (-1, 0),
            (1, 0),
            (-1, 1),
            (0, 1),
            (1, 1),
        ];
        assert(outline@ =~= outline_moves());
        self.text_moves(x, y, text, BLACK, scale, OUTLINE_OPACITY, &outline);
        // bright core
        let core = blend(color, WHITE, CORE_BRIGHTNESS);  // slightly brighten the neon
        self.text_raw(x, y, text, core, scale, 255);
    }

    fn stick_dot(&mut self, cx: i32, cy: i32, color: u32)
        requires
            old(self).wf(),
            i32::MIN < cx < i32::MAX,
            cx >= -1 ==> i32::MIN < cy < i32::MAX,
        ensures
            final(self).wf(),
            final(self).w == old(self).w,
            final(self).h == old(self).h,
            final(self)@ == raster::drawn(
                old(self)@,
                raster::area(cx - 1, cy - 1, 3, 3, raster::solid(color)),
            ),
            final(final(self).buf)@ == final(old(self).buf)@,
    {
        let ghost p = self@;
        let ghost ink = raster::solid(color);
        let ghost (gx, gy) = (cx - 1, cy - 1);
        proof {
            raster::lemma_sweep_starts(p, gx, gy, 3, ink);
        }
        for i in 0..3i32
            invariant
                self.wf(),
                p == old(self)@,
                i32::MIN < cx < i32::MAX,
                cx >= -1 ==> i32::MIN < cy < i32::MAX,
                ink == raster::solid(color),
                (gx, gy) == (cx - 1, cy - 1),
                self@ == raster::drawn(p, raster::swept(gx, gy, 3, i as int, 0, ink)),
                final(self.buf)@ == final(old(self).buf)@,
        {
            for j in 0..3i32
                invariant
                    self.wf(),
                    p == old(self)@,
                    0 <= i < 3,
                    i32::MIN < cx < i32::MAX,
                    cx >= -1 ==> i32::MIN < cy < i32::MAX,
                    ink == raster::solid(color),
                    (gx, gy) == (cx - 1, cy - 1),
                    self@ == raster::drawn(p, raster::swept(gx, gy, 3, i as int, j as int, ink)),
                    final(self.buf)@ == final(old(self).buf)@,
            {
                proof {
                    raster::lemma_sweep_step(p, gx, gy, 3, i as int, j as int, ink);
                }
                if cx + (j - 1) >= 0 && cy + (i - 1) >= 0 {
                    self.put((cx + (j - 1)) as usize, (cy + (i - 1)) as usize, color);
                } else {
                    proof {
                        raster::lemma_untouched(self@, raster::area(gx + j, gy + i, 1, 1, ink));
                    }
                }
            }
            proof {
                raster::lemma_sweep_row(p, gx, gy, 3, i as int, ink);
            }
        }
        proof {
            raster::lemma_sweep_ends(p, gx, gy, 3, 3, ink);
        }
    }

    /// Stick-position box: outlined square with a neon dot at (`ax`, `ay`) in 0..=255,
    /// y drawn inverted (255 = top), like an FPV transmitter OSD.
    pub fn stick_box(&mut self, x: usize, y: usize, size: usize, ax: u8, ay: u8, color: u32)
        requires
            old(self).wf(),
            stick_fits(x as int, y as int, size as int, ax, ay),
        ensures
            final(self).wf(),
            final(self).w == old(self).w,
            final(self).h == old(self).h,
            final(self)@ == with_stick_box(
                old(self)@,
                x as int,
                y as int,
                size as int,
                ax,
                ay,
                color,
            ),
            final(final(self).buf)@ == final(old(self).buf)@,
    {
        proof {
            lemma_stick_offset(ax as int, size as int);
            lemma_stick_offset(255 - ay as int, size as int);
        }
        let side = blend(color, 0, BOX_SHADE);
        let cross = blend(color, 0, CROSS_SHADE);
        self.hline(x, y, size, side);
        self.hline(x, y + size, size, side);
        self.vline(x, y, size, side);
        self.vline(x + size, y, size, side);
        // faint center crosshair
        self.hline(x, y + size / 2, size, cross);
        self.vline(x + size / 2, y, size, cross);
        let cx = as_i32(x + (ax as usize * size) / 255);
        let cy = as_i32(y + ((255 - ay as usize) * size) / 255);
        self.stick_dot(cx, cy, color);
    }
}

proof fn lemma_arm(from: int, d: int, n: int)
    requires
        0 <= n,
    ensures
        forall|at: int|
            #[trigger] on_arm(at, from, d, n + 1) <==> on_arm(at, from, d, n) || at == stepped(
                from,
                d,
                n,
            ),
{
    assert forall|at: int| #[trigger] on_arm(at, from, d, n + 1) implies on_arm(at, from, d, n)
        || at == stepped(from, d, n) by {
        let i = choose|i: int| 0 <= i < n + 1 && at == #[trigger] stepped(from, d, i);
        if i < n {
            assert(at == stepped(from, d, i));
        }
    }
    assert forall|at: int|
        on_arm(at, from, d, n) || at == stepped(from, d, n) implies #[trigger] on_arm(
        at,
        from,
        d,
        n + 1,
    ) by {
        if on_arm(at, from, d, n) {
            let i = choose|i: int| 0 <= i < n && at == #[trigger] stepped(from, d, i);
            assert(at == stepped(from, d, i));
        }
    }
}

proof fn lemma_stick_offset(value: int, size: int)
    requires
        0 <= value <= 255,
        0 <= size,
    ensures
        0 <= value * size,
        0 <= stick_offset(value, size) <= size,
        value == 0 ==> stick_offset(value, size) == 0,
        value == 255 ==> stick_offset(value, size) == size,
{
    assert(value == 0 ==> value * size == 0) by (nonlinear_arith);
    assert(value == 255 ==> value * size == 255 * size) by (nonlinear_arith);
    assert(0 <= value * size <= 255 * size) by (nonlinear_arith)
        requires
            0 <= value <= 255,
            0 <= size,
    ;
}

/// Every frame from three pixels up to the largest signed 32-bit size can be drawn.
pub proof fn neon_frame_fits_screens(n: int)
    requires
        3 <= n <= i32::MAX,
    ensures
        frame_fits(n),
{
}

/// On a screen of signed 32-bit size, the stick's dot lies where the stick points:
/// inside the box, left to right with `ax` and bottom to top with `ay`.
pub proof fn stick_dot_inside_box(x: int, y: int, size: int, ax: u8, ay: u8)
    requires
        0 <= x,
        0 <= y,
        0 <= size,
        x + size <= i32::MAX,
        y + size <= i32::MAX,
    ensures
        ({
            let (cx, cy) = stick_center(x, y, size, ax, ay);
            &&& x <= cx <= x + size
            &&& y <= cy <= y + size
            &&& ax == 0 ==> cx == x
            &&& ax == 255 ==> cx == x + size
            &&& ay == 0 ==> cy == y + size
            &&& ay == 255 ==> cy == y
        }),
{
    lemma_stick_offset(ax as int, size);
    lemma_stick_offset(255 - ay as int, size);
}

proof fn lemma_moves_frame(
    p: Picture,
    text: Seq<char>,
    x: int,
    y: int,
    scale: int,
    ink: Ink,
    moves: Seq<(i32, i32)>,
)
    ensures
        raster::same_frame(p, with_moves(p, text, x, y, scale, ink, moves)),
    decreases moves.len(),
{
    if moves.len() > 0 {
        lemma_moves_frame(p, text, x, y, scale, ink, moves.drop_last());
    }
}

/// Glowing text keeps the size of the picture, and everything past its rows.
pub proof fn glow_text_stays_on_canvas(
    p: Picture,
    x: int,
    y: int,
    text: Seq<char>,
    color: u32,
    scale: int,
)
    ensures
        raster::same_frame(p, with_glow_text(p, x, y, text, color, scale)),
{
    let bloom = raster::glaze(color, BLOOM_OPACITY as int);
    let outline = raster::glaze(BLACK, OUTLINE_OPACITY as int);
    let bloomed = with_moves(p, text, x, y, scale, bloom, bloom_moves());
    lemma_moves_frame(p, text, x, y, scale, bloom, bloom_moves());
    lemma_moves_frame(bloomed, text, x, y, scale, outline, outline_moves());
}

/// Whether text at (`x`, `y`) has a set dot on the pixel (`px`, `py`).
pub open spec fn text_covers(
    text: Seq<char>,
    x: int,
    y: int,
    scale: int,
    px: int,
    py: int,
) -> bool {
    scale > 0 && px >= x && py >= y && font::text_dot(
        text,
        font::dot_of(px, x, scale),
        font::dot_of(py, y, scale),
    )
}

/// The core of glowing text has its color on any background.
pub proof fn text_core_is_bright(
    p: Picture,
    x: int,
    y: int,
    text: Seq<char>,
    color: u32,
    scale: int,
    px: int,
    py: int,
)
    requires
        p.w * p.h <= p.px.len(),
        0 <= px < p.w,
        0 <= py < p.h,
        text_covers(text, x, y, scale, px, py),
    ensures
        raster::pixel(with_glow_text(p, x, y, text, color, scale), px, py) == color::blended(
            color,
            WHITE,
            CORE_BRIGHTNESS as int,
        ),
{
    let bloom = raster::glaze(color, BLOOM_OPACITY as int);
    let outline = raster::glaze(BLACK, OUTLINE_OPACITY as int);
    let core = color::blended(color, WHITE, CORE_BRIGHTNESS as int);
    let bloomed = with_moves(p, text, x, y, scale, bloom, bloom_moves());
    let outlined = with_moves(bloomed, text, x, y, scale, outline, outline_moves());
    lemma_moves_frame(p, text, x, y, scale, bloom, bloom_moves());
    lemma_moves_frame(bloomed, text, x, y, scale, outline, outline_moves());
    let f = font::text_paint(text, x, y, scale, raster::glaze(core, 255));
    raster::drawn_pixel(outlined, f, px, py);
    color::blend_extremes(raster::pixel(outlined, px, py), core);
    color::blend_stays_between(color, WHITE, CORE_BRIGHTNESS as int);
}

proof fn lemma_outline_covers(
    p: Picture,
    text: Seq<char>,
    x: int,
    y: int,
    scale: int,
    moves: Seq<(i32, i32)>,
    k: int,
    px: int,
    py: int,
)
    requires
        p.w * p.h <= p.px.len(),
        0 <= px < p.w,
        0 <= py < p.h,
        0 <= k < moves.len(),
        text_covers(
            text,
            shifted(x, moves[k].0 as int, scale),
            shifted(y, moves[k].1 as int, scale),
            scale,
            px,
            py,
        ),
    ensures
        raster::pixel(
            with_moves(
                p,
                text,
                x,
                y,
                scale,
                raster::glaze(BLACK, OUTLINE_OPACITY as int),
                moves,
            ),
            px,
            py,
        ) == BLACK,
    decreases moves.len(),
{
    let ink = raster::glaze(BLACK, OUTLINE_OPACITY as int);
    let front = moves.drop_last();
    let before = with_moves(p, text, x, y, scale, ink, front);
    let (ox, oy) = moves.last();
    let f = font::text_paint(
        text,
        shifted(x, ox as int, scale),
        shifted(y, oy as int, scale),
        scale,
        ink,
    );
    lemma_moves_frame(p, text, x, y, scale, ink, front);
    raster::drawn_pixel(before, f, px, py);
    color::blend_extremes(raster::pixel(before, px, py), BLACK);
    if k < front.len() {
        lemma_outline_covers(p, text, x, y, scale, front, k, px, py);
    }
}

/// The outline of glowing text is black on any background: every pixel that one of
/// the eight moves covers, and the text itself does not.
pub proof fn text_outline_is_black(
    p: Picture,
    x: int,
    y: int,
    text: Seq<char>,
    color: u32,
    scale: int,
    k: int,
    px: int,
    py: int,
)
    requires
        p.w * p.h <= p.px.len(),
        0 <= px < p.w,
        0 <= py < p.h,
        0 <= k < outline_moves().len(),
        text_covers(
            text,
            shifted(x, outline_moves()[k].0 as int, scale),
            shifted(y, outline_moves()[k].1 as int, scale),
            scale,
            px,
            py,
        ),
        !text_covers(text, x, y, scale, px, py),
    ensures
        raster::pixel(with_glow_text(p, x, y, text, color, scale), px, py) == BLACK,
{
    let bloom = raster::glaze(color, BLOOM_OPACITY as int);
    let outline = raster::glaze(BLACK, OUTLINE_OPACITY as int);
    let core = color::blended(color, WHITE, CORE_BRIGHTNESS as int);
    let bloomed = with_moves(p, text, x, y, scale, bloom, bloom_moves());
    let outlined = with_moves(bloomed, text, x, y, scale, outline, outline_moves());
    lemma_moves_frame(p, text, x, y, scale, bloom, bloom_moves());
    lemma_moves_frame(bloomed, text, x, y, scale, outline, outline_moves());
    lemma_outline_covers(bloomed, text, x, y, scale, outline_moves(), k, px, py);
    let f = font::text_paint(text, x, y, scale, raster::glaze(core, 255));
    raster::drawn_pixel(outlined, f, px, py);
}

/// Scanlines darken every other row, the first one to begin with: what is left of every
/// channel is 195 parts of 255, rounded down. The rows between stay as they are.
pub proof fn scanlines_darken_every_other_row(p: Picture, x: int, y: int)
    requires
        p.w * p.h <= p.px.len(),
        0 <= x < p.w,
        0 <= y < p.h,
    ensures
        ({
            let was = p.px[y * p.w + x];
            let now = raster::drawn(p, scanline_paint()).px[y * p.w + x];
            &&& y % 2 == 1 ==> now == was
            &&& y % 2 == 0 ==> 255 * color::red(now) <= 195 * color::red(was) < 255 * color::red(
                now,
            ) + 255
            &&& y % 2 == 0 ==> 255 * color::green(now) <= 195 * color::green(was) < 255
                * color::green(now) + 255
            &&& y % 2 == 0 ==> 255 * color::blue(now) <= 195 * color::blue(was) < 255 * color::blue(
                now,
            ) + 255
        }),
{
    raster::drawn_pixel(p, scanline_paint(), x, y);
    color::blend_is_weighted_mean(p.px[y * p.w + x], 0, 60);
}

/// What is seen of a bar: its first `fill` columns have the color, the rest of its
/// rectangle lets 55 parts of 255 of what was there shine through the dark, the column in
/// the middle is tinted cyan over either, and nothing else changes.
pub proof fn bar_fills_from_the_left(
    p: Picture,
    x: int,
    y: int,
    w: int,
    h: int,
    fill: int,
    color: u32,
    px: int,
    py: int,
)
    requires
        p.w * p.h <= p.px.len(),
        0 <= px < p.w,
        0 <= py < p.h,
    ensures
        ({
            let was = p.px[py * p.w + px];
            let now = with_bar(p, x, y, w, h, fill, color).px[py * p.w + px];
            let along = y <= py < y + h;
            let under = if along && x <= px < x + fill {
                color
            } else if along && x <= px < x + w {
                color::blended(was, 0x0005_0A12, 200)
            } else {
                was
            };
            &&& along && px == x + w / 2 ==> now == color::blended(under, 0x0000_F0FF, 180)
            &&& !(along && px == x + w / 2) ==> now == under
        }),
{
    let track = raster::area(x, y, w, h, raster::glaze(DARK, TRACK_OPACITY as int));
    let filled = raster::area(x, y, fill, h, raster::solid(color));
    let tick = raster::area(x + w / 2, y, 1, h, raster::glaze(CYAN, TICK_OPACITY as int));
    let q = raster::drawn(p, track);
    let r = raster::drawn(q, filled);
    raster::drawn_pixel(p, track, px, py);
    raster::drawn_pixel(q, filled, px, py);
    raster::drawn_pixel(r, tick, px, py);
}

/// A stick's dot lies as far along its box as the stick is pushed, to the pixel: from left
/// to right, and from the bottom to the top.
pub proof fn stick_dot_is_proportional(x: int, y: int, size: int, ax: u8, ay: u8)
    requires
        0 <= x,
        0 <= y,
        0 <= size,
        x + size <= i32::MAX,
        y + size <= i32::MAX,
    ensures
        ({
            let (cx, cy) = stick_center(x, y, size, ax, ay);
            &&& 255 * (cx - x) <= ax * size < 255 * (cx - x + 1)
            &&& 255 * (cy - y) <= (255 - ay) * size < 255 * (cy - y + 1)
        }),
{
    lemma_stick_offset(ax as int, size);
    lemma_stick_offset(255 - ay as int, size);
}

/// What is seen of a stick box: the dot, three pixels a side around the stick's place, in
/// full color; then the crosshair through the middle and the four sides, darkened; and
/// nothing else changes.
pub proof fn stick_box_is_drawn(
    p: Picture,
    x: int,
    y: int,
    size: int,
    ax: u8,
    ay: u8,
    color: u32,
    px: int,
    py: int,
)
    requires
        p.w * p.h <= p.px.len(),
        0 <= px < p.w,
        0 <= py < p.h,
        0 <= size,
    ensures
        ({
            let was = p.px[py * p.w + px];
            let now = with_stick_box(p, x, y, size, ax, ay, color).px[py * p.w + px];
            let (cx, cy) = stick_center(x, y, size, ax, ay);
            let across = x <= px < x + size;
            let along = y <= py < y + size;
            let dot = cx - 1 <= px <= cx + 1 && cy - 1 <= py <= cy + 1;
            let cross = (across && py == y + size / 2) || (along && px == x + size / 2);
            let side = (across && (py == y || py == y + size)) || (along && (px == x || px == x
                + size));
            &&& dot ==> now == color
            &&& !dot && cross ==> now == color::blended(color, 0, 160)
            &&& !dot && !cross && side ==> now == color::blended(color, 0, 80)
            &&& !dot && !cross && !side ==> now == was
        }),
{
    let side = raster::solid(color::blended(color, 0, BOX_SHADE as int));
    let cross = raster::solid(color::blended(color, 0, CROSS_SHADE as int));
    let (cx, cy) = stick_center(x, y, size, ax, ay);
    let f1 = raster::area(x, y, size, 1, side);
    let f2 = raster::area(x, y + size, size, 1, side);
    let f3 = raster::area(x, y, 1, size, side);
    let f4 = raster::area(x + size, y, 1, size, side);
    let f5 = raster::area(x, y + size / 2, size, 1, cross);
    let f6 = raster::area(x + size / 2, y, 1, size, cross);
    let f7 = raster::area(cx - 1, cy - 1, 3, 3, raster::solid(color));
    let p1 = raster::drawn(p, f1);
    let p2 = raster::drawn(p1, f2);
    let p3 = raster::drawn(p2, f3);
    let p4 = raster::drawn(p3, f4);
    let p5 = raster::drawn(p4, f5);
    let p6 = raster::drawn(p5, f6);
    raster::drawn_pixel(p, f1, px, py);
    raster::drawn_pixel(p1, f2, px, py);
    raster::drawn_pixel(p2, f3, px, py);
    raster::drawn_pixel(p3, f4, px, py);
    raster::drawn_pixel(p4, f5, px, py);
    raster::drawn_pixel(p5, f6, px, py);
    raster::drawn_pixel(p6, f7, px, py);
}

proof fn lemma_arm_place(at: int, from: int, d: int, i: int)
    requires
        0 <= i < 14,
        d == 1 || d == -1,
        2 <= from < i32::MAX - 20,
        at == from + d * i,
        0 <= at,
    ensures
        on_arm(at, from, d, 14),
{
    assert(at == stepped(from, d, i));
}

proof fn lemma_off_arm(at: int, from: int, d: int)
    requires
        d == 1 || d == -1,
        2 <= from < i32::MAX - 20,
        0 <= at <= i32::MAX,
        !(0 <= d * (at - from) < 14),
    ensures
        !on_arm(at, from, d, 14),
{
    if on_arm(at, from, d, 14) {
        let i = choose|i: int| 0 <= i < 14 && at == #[trigger] stepped(from, d, i);
        if d == 1 {
            assert(stepped(from, d, i) == from + i);
        } else {
            assert(from + d * i == from - i);
        }
    }
}

/// What is seen of the neon frame on a picture of at least forty pixels either way: the
/// outermost pixels in its color, the brackets in cyan, with arms of fourteen pixels from
/// the third pixel of each corner; and inside of both, nothing changes.
pub proof fn neon_frame_is_drawn(p: Picture, color: u32, x: int, y: int)
    requires
        p.w * p.h <= p.px.len(),
        40 <= p.w < i32::MAX - 20,
        40 <= p.h < i32::MAX - 20,
        0 <= x < p.w,
        0 <= y < p.h,
        color < 0x100_0000,
    ensures
        ({
            let (w, h) = (p.w as int, p.h as int);
            let was = p.px[y * p.w + x];
            let now = with_neon_frame(p, color).px[y * p.w + x];
            let ends = |at: int, n: int| 2 <= at < 16 || n - 17 < at <= n - 3;
            let arm = ((y == 2 || y == h - 3) && ends(x, w)) || ((x == 2 || x == w - 3) && ends(
                y,
                h,
            ));
            let rim = x == 0 || x == w - 1 || y == 0 || y == h - 1;
            let inside = 2 <= x <= w - 3 && 2 <= y <= h - 3;
            &&& rim ==> now == color
            &&& arm ==> now == 0x0000_F0FF
            &&& inside && !arm ==> now == was
            &&& x == 1 && 2 <= y <= h - 3 ==> now == color::blended(was, color, 120)
            &&& x == w - 2 && 2 <= y <= h - 3 ==> now == color::blended(was, color, 120)
            &&& y == 1 && 2 <= x <= w - 3 ==> now == color::blended(was, color, 120)
            &&& y == h - 2 && 2 <= x <= w - 3 ==> now == color::blended(was, color, 120)
            &&& (x == 1 || x == w - 2) && (y == 1 || y == h - 2) ==> now == color::blended(
                color::blended(was, color, 120),
                color,
                120,
            )
        }),
{
    let (w, h, n) = (p.w as int, p.h as int, BRACKET_LEN as int);
    let f1 = row_edges(h, color);
    let f2 = column_edges(w, color);
    let f3 = bracket(2, 2, 1, 1, n);
    let f4 = bracket(w - 3, 2, -1, 1, n);
    let f5 = bracket(2, h - 3, 1, -1, n);
    let f6 = bracket(w - 3, h - 3, -1, -1, n);
    let p1 = raster::drawn(p, f1);
    let p2 = raster::drawn(p1, f2);
    let p3 = raster::drawn(p2, f3);
    let p4 = raster::drawn(p3, f4);
    let p5 = raster::drawn(p4, f5);
    raster::drawn_pixel(p, f1, x, y);
    raster::drawn_pixel(p1, f2, x, y);
    raster::drawn_pixel(p2, f3, x, y);
    raster::drawn_pixel(p3, f4, x, y);
    raster::drawn_pixel(p4, f5, x, y);
    raster::drawn_pixel(p5, f6, x, y);
    color::blend_stays_between(color, color, 120);
    color::channels_are_bytes(color);
    color::channels_are_bytes(color::blended(color, color, 120));
    lemma_on_or_off(x, 2, 1);
    lemma_on_or_off(x, w - 3, -1);
    lemma_on_or_off(y, 2, 1);
    lemma_on_or_off(y, h - 3, -1);
}

proof fn lemma_on_or_off(at: int, from: int, d: int)
    requires
        d == 1 || d == -1,
        2 <= from < i32::MAX - 20,
        0 <= at <= i32::MAX,
    ensures
        d == 1 ==> (on_arm(at, from, d, BRACKET_LEN as int) <==> from <= at < from + 14),
        d == -1 ==> (on_arm(at, from, d, BRACKET_LEN as int) <==> from - 14 < at <= from),
{
    let i = if d == 1 {
        at - from
    } else {
        from - at
    };
    assert(d * (at - from) == i && d * i == at - from) by (nonlinear_arith)
        requires
            d == 1 && i == at - from || d == -1 && i == from - at,
    ;
    if 0 <= i < 14 {
        lemma_arm_place(at, from, d, i);
    } else {
        lemma_off_arm(at, from, d);
    }
}

/// A coordinate is moved by whole dots, and held at the edge of the picture.
pub proof fn moves_are_whole_dots(at: int, o: int, scale: int)
    requires
        0 <= at <= i32::MAX,
        0 <= scale <= i32::MAX,
    ensures
        at + o * scale >= 0 ==> shifted(at, o, scale) == at + o * scale,
        at + o * scale < 0 ==> shifted(at, o, scale) == 0,
{
}

/// The outline goes all around: a pixel that the text would cover if it were moved by one
/// dot in any of the eight directions, and does not cover where it is, is black.
pub proof fn outline_goes_all_around(
    p: Picture,
    x: int,
    y: int,
    text: Seq<char>,
    color: u32,
    scale: int,
    ox: int,
    oy: int,
    px: int,
    py: int,
)
    requires
        p.w * p.h <= p.px.len(),
        0 <= px < p.w,
        0 <= py < p.h,
        -1 <= ox <= 1,
        -1 <= oy <= 1,
        ox != 0 || oy != 0,
        text_covers(text, shifted(x, ox, scale), shifted(y, oy, scale), scale, px, py),
        !text_covers(text, x, y, scale, px, py),
    ensures
        with_glow_text(p, x, y, text, color, scale).px[py * p.w + px] == 0,
{
    let k = if oy == -1 {
        ox + 1
    } else if oy == 0 {
        if ox == -1 {
            3int
        } else {
            4
        }
    } else {
        ox + 6
    };
    assert(outline_moves()[k].0 == ox && outline_moves()[k].1 == oy);
    text_outline_is_black(p, x, y, text, color, scale, k, px, py);
    glow_text_stays_on_canvas(p, x, y, text, color, scale);
}

/// One where the text, moved by that many dots, covers a pixel, and zero where not.
pub open spec fn covers_once(
    text: Seq<char>,
    x: int,
    y: int,
    scale: int,
    px: int,
    py: int,
    ox: int,
    oy: int,
) -> int {
    if text_covers(text, shifted(x, ox, scale), shifted(y, oy, scale), scale, px, py) {
        1
    } else {
        0
    }
}

/// How often the moved text covers a pixel.
pub open spec fn cover_count(
    text: Seq<char>,
    x: int,
    y: int,
    scale: int,
    moves: Seq<(i32, i32)>,
    px: int,
    py: int,
) -> nat
    decreases moves.len(),
{
    if moves.len() == 0 {
        0
    } else {
        let (ox, oy) = moves.last();
        cover_count(text, x, y, scale, moves.drop_last(), px, py) + if text_covers(
            text,
            shifted(x, ox as int, scale),
            shifted(y, oy as int, scale),
            scale,
            px,
            py,
        ) {
            1nat
        } else {
            0
        }
    }
}

/// A color with the same ink put on it `n` times.
pub open spec fn inked_times(c: u32, ink: Ink, n: nat) -> u32
    decreases n,
{
    if n == 0 {
        c
    } else {
        ink(inked_times(c, ink, (n - 1) as nat))
    }
}

proof fn lemma_moves_uncovered(
    p: Picture,
    text: Seq<char>,
    x: int,
    y: int,
    scale: int,
    ink: Ink,
    moves: Seq<(i32, i32)>,
    px: int,
    py: int,
)
    requires
        p.w * p.h <= p.px.len(),
        0 <= px < p.w,
        0 <= py < p.h,
    ensures
        ({
            let n = cover_count(text, x, y, scale, moves, px, py);
            let now = raster::pixel(with_moves(p, text, x, y, scale, ink, moves), px, py);
            now == inked_times(raster::pixel(p, px, py), ink, n)
        }),
    decreases moves.len(),
{
    if moves.len() > 0 {
        let front = moves.drop_last();
        let (ox, oy) = moves.last();
        let before = with_moves(p, text, x, y, scale, ink, front);
        lemma_moves_uncovered(p, text, x, y, scale, ink, front, px, py);
        lemma_moves_frame(p, text, x, y, scale, ink, front);
        raster::drawn_pixel(
            before,
            font::text_paint(
                text,
                shifted(x, ox as int, scale),
                shifted(y, oy as int, scale),
                scale,
                ink,
            ),
            px,
            py,
        );
    }
}

/// Away from the text and its outline, a pixel is tinted once for each of the four ways in
/// which the text, moved by two dots up, down, left or right, covers it, and stays as it
/// was where none does.
pub proof fn bloom_surrounds_the_text(
    p: Picture,
    x: int,
    y: int,
    text: Seq<char>,
    color: u32,
    scale: int,
    px: int,
    py: int,
)
    requires
        p.w * p.h <= p.px.len(),
        0 <= px < p.w,
        0 <= py < p.h,
        forall|ox: int, oy: int|
            -1 <= ox <= 1 && -1 <= oy <= 1 ==> !text_covers(
                text,
                #[trigger] shifted(x, ox, scale),
                #[trigger] shifted(y, oy, scale),
                scale,
                px,
                py,
            ),
        !text_covers(text, x, y, scale, px, py),
    ensures
        ({
            let was = p.px[py * p.w + px];
            let now = with_glow_text(p, x, y, text, color, scale).px[py * p.w + px];
            let covers = |ox: int, oy: int| covers_once(text, x, y, scale, px, py, ox, oy);
            let n = covers(0, -2) + covers(0, 2) + covers(-2, 0) + covers(2, 0);
            &&& n == 0 ==> now == was
            &&& n == 1 ==> now == color::blended(was, color, 45)
            &&& now == inked_times(was, |c: u32| color::blended(c, color, 45), n as nat)
        }),
{
    let bloom = raster::glaze(color, BLOOM_OPACITY as int);
    let outline = raster::glaze(BLACK, OUTLINE_OPACITY as int);
    let core = color::blended(color, WHITE, CORE_BRIGHTNESS as int);
    let bloomed = with_moves(p, text, x, y, scale, bloom, bloom_moves());
    let outlined = with_moves(bloomed, text, x, y, scale, outline, outline_moves());
    lemma_moves_frame(p, text, x, y, scale, bloom, bloom_moves());
    lemma_moves_frame(bloomed, text, x, y, scale, outline, outline_moves());
    lemma_moves_uncovered(p, text, x, y, scale, bloom, bloom_moves(), px, py);
    lemma_moves_uncovered(bloomed, text, x, y, scale, outline, outline_moves(), px, py);
    lemma_outline_count(text, x, y, scale, px, py);
    lemma_bloom_count(text, x, y, scale, px, py);
    let n = cover_count(text, x, y, scale, bloom_moves(), px, py);
    lemma_same_ink(raster::pixel(p, px, py), bloom, |c: u32| color::blended(c, color, 45), n);
    reveal_with_fuel(inked_times, 2);
    let f = font::text_paint(text, x, y, scale, raster::glaze(core, 255));
    raster::drawn_pixel(outlined, f, px, py);
}

proof fn lemma_same_ink(c: u32, a: Ink, b: Ink, n: nat)
    requires
        forall|x: u32| #[trigger] a(x) == b(x),
    ensures
        inked_times(c, a, n) == inked_times(c, b, n),
    decreases n,
{
    if n > 0 {
        lemma_same_ink(c, a, b, (n - 1) as nat);
    }
}

proof fn lemma_outline_count(text: Seq<char>, x: int, y: int, scale: int, px: int, py: int)
    requires
        forall|ox: int, oy: int|
            -1 <= ox <= 1 && -1 <= oy <= 1 ==> !text_covers(
                text,
                #[trigger] shifted(x, ox, scale),
                #[trigger] shifted(y, oy, scale),
                scale,
                px,
                py,
            ),
    ensures
        cover_count(text, x, y, scale, outline_moves(), px, py) == 0,
{
    let m = outline_moves();
    lemma_none_cover(text, x, y, scale, m, px, py);
}

proof fn lemma_none_cover(
    text: Seq<char>,
    x: int,
    y: int,
    scale: int,
    moves: Seq<(i32, i32)>,
    px: int,
    py: int,
)
    requires
        forall|i: int|
            0 <= i < moves.len() ==> -1 <= (#[trigger] moves[i]).0 <= 1 && -1 <= moves[i].1 <= 1,
        forall|ox: int, oy: int|
            -1 <= ox <= 1 && -1 <= oy <= 1 ==> !text_covers(
                text,
                #[trigger] shifted(x, ox, scale),
                #[trigger] shifted(y, oy, scale),
                scale,
                px,
                py,
            ),
    ensures
        cover_count(text, x, y, scale, moves, px, py) == 0,
    decreases moves.len(),
{
    if moves.len() > 0 {
        let front = moves.drop_last();
        assert forall|i: int| 0 <= i < front.len() implies -1 <= (#[trigger] front[i]).0 <= 1 && -1
            <= front[i].1 <= 1 by {
            assert(front[i] == moves[i]);
        }
        lemma_none_cover(text, x, y, scale, front, px, py);
        assert(-1 <= moves[moves.len() - 1].0 <= 1);
    }
}

proof fn lemma_bloom_count(text: Seq<char>, x: int, y: int, scale: int, px: int, py: int)
    ensures
        ({
            let covers = |ox: int, oy: int| covers_once(text, x, y, scale, px, py, ox, oy);
            cover_count(text, x, y, scale, bloom_moves(), px, py) == covers(0, -2) + covers(0, 2)
                + covers(-2, 0) + covers(2, 0)
        }),
{
    let m = bloom_moves();
    let m3 = m.drop_last();
    let m2 = m3.drop_last();
    let m1 = m2.drop_last();
    let m0 = m1.drop_last();
    assert(m.last() == (2i32, 0i32));
    assert(m3.last() == (-2i32, 0i32));
    assert(m2.last() == (0i32, 2i32));
    assert(m1.last() == (0i32, -2i32));
    assert(m0.len() == 0);
    assert(cover_count(text, x, y, scale, m0, px, py) == 0);
    assert(cover_count(text, x, y, scale, m1, px, py) == covers_once(
        text,
        x,
        y,
        scale,
        px,
        py,
        0,
        -2,
    ));
    assert(cover_count(text, x, y, scale, m2, px, py) == cover_count(
        text,
        x,
        y,
        scale,
        m1,
        px,
        py,
    ) + covers_once(text, x, y, scale, px, py, 0, 2));
    assert(cover_count(text, x, y, scale, m3, px, py) == cover_count(
        text,
        x,
        y,
        scale,
        m2,
        px,
        py,
    ) + covers_once(text, x, y, scale, px, py, -2, 0));
}

/// The core of glowing text is its color brightened by 70 parts of 255 of white.
pub proof fn core_is_brightened(
    p: Picture,
    x: int,
    y: int,
    text: Seq<char>,
    color: u32,
    scale: int,
    px: int,
    py: int,
)
    requires
        p.w * p.h <= p.px.len(),
        0 <= px < p.w,
        0 <= py < p.h,
        text_covers(text, x, y, scale, px, py),
    ensures
        with_glow_text(p, x, y, text, color, scale).px[py * p.w + px] == color::blended(
            color,
            0x00FF_FFFF,
            70,
        ),
{
    text_core_is_bright(p, x, y, text, color, scale, px, py);
    glow_text_stays_on_canvas(p, x, y, text, color, scale);
}

/// A text covers the squares of its set dots, each `scale` pixels a side, and no other
/// pixel.
pub proof fn text_covers_its_dots(
    text: Seq<char>,
    x: int,
    y: int,
    scale: int,
    col: int,
    row: int,
    i: int,
    j: int,
)
    requires
        0 <= i < scale,
        0 <= j < scale,
        0 <= col,
        0 <= row,
    ensures
        text_covers(text, x, y, scale, x + col * scale + i, y + row * scale + j) == font::text_dot(
            text,
            col,
            row,
        ),
        i > 0 ==> !text_covers(text, x, y, scale, x - i, y + row * scale + j),
        j > 0 ==> !text_covers(text, x, y, scale, x + col * scale + i, y - j),
{
    font::lemma_dot(x + col * scale + i, x, scale, col);
    font::lemma_dot(y + row * scale + j, y, scale, row);
}

} // verus!
