//! Minimal 8x8 bitmap-font text rendering onto a `0x00RRGGBB` framebuffer.

use crate::color::BLACK;
use crate::font;
use crate::font::glyph_of;
use crate::hud;
use crate::raster;
use crate::raster::Picture;
use vstd::prelude::*;

verus! {

/// A borrowed RGB framebuffer to draw HUD text onto.
pub struct Canvas<'a> {
    pub buf: &'a mut [u32],
    pub w: usize,
    pub h: usize,
}

impl<'a> View for Canvas<'a> {
    type V = Picture;

    open spec fn view(&self) -> Picture {
        Picture { w: self.w as nat, h: self.h as nat, px: self.buf@ }
    }
}

/// Text over a black shadow one pixel down and to the right.
pub open spec fn with_text(
    p: Picture,
    x: int,
    y: int,
    text: Seq<char>,
    color: u32,
    scale: int,
) -> Picture {
    raster::drawn(
        raster::drawn(
            p,
            font::text_paint(text, x + 1, y + 1, scale, raster::solid(BLACK)),
        ),
        font::text_paint(text, x, y, scale, raster::solid(color)),
    )
}

impl<'a> Canvas<'a> {
    /// The buffer holds every row.
    pub open spec fn wf(&self) -> bool {
        self.w * self.h <= self.buf.len()
    }

    /// Draws `text` at (`x`, `y`) in `color`, with a 1px black shadow for legibility.
    pub fn text(&mut self, x: usize, y: usize, text: &str, color: u32, scale: usize)
        requires
            old(self).wf(),
            y < usize::MAX,
            hud::text_fits(x + 1, y + 1, text@.len(), scale as int),
        ensures
            final(self).wf(),
            final(self)@ == with_text(
                old(self)@,
                x as int,
                y as int,
                text@,
                color,
                scale as int,
            ),
            final(final(self).buf)@ == final(old(self).buf)@,
    {
        assert(0 <= (8 * text@.len()) * scale) by (nonlinear_arith);
        self.raw(x + 1, y + 1, text, BLACK, scale);
        self.raw(x, y, text, color, scale);
    }

    fn raw(&mut self, x: usize, y: usize, text: &str, color: u32, scale: usize)
        requires
            old(self).wf(),
            hud::text_fits(x as int, y as int, text@.len(), scale as int),
        ensures
            final(self).wf(),
            final(self)@ == raster::drawn(
                old(self)@,
                font::text_paint(text@, x as int, y as int, scale as int, raster::solid(color)),
            ),
            final(final(self).buf)@ == final(old(self).buf)@,
    {
        let ghost p = self@;
        let ghost ink = raster::solid(color);
        let ghost (gx, gy, gs) = (x as int, y as int, scale as int);
        let ghost n = text@.len();
        proof {
            font::lemma_text_starts(p, text@, gx, gy, gs, ink);
        }
        let mut cx: usize = x;
        assert((8 * 0int) * scale == 0) by (nonlinear_arith);
        for ch in it: text.chars()
            invariant
                self.wf(),
                p == old(self)@,
                (gx, gy, gs) == (x as int, y as int, scale as int),
                n == text@.len(),
                hud::text_fits(gx, gy, n, gs),
                ink == raster::solid(color),
                it.seq() == text@,
                cx == x + (8 * it.index()) * scale,
                self@ == raster::drawn(
                    p,
                    font::text_paint(text@.take(it.index()), gx, gy, gs, ink),
                ),
                final(self.buf)@ == final(old(self).buf)@,
        {
            let ghost k = it.index();
            proof {
                font::lemma_text_step(p, text@, gx, gy, gs, ink, k);
                assert((8 * k) * scale + 8 * scale == (8 * (k + 1)) * scale) by (nonlinear_arith);
                assert((8 * (k + 1)) * scale <= (8 * n) * scale) by (nonlinear_arith)
                    requires
                        k + 1 <= n,
                        0 <= scale,
                ;
            }
            if let Some(rows) = glyph_of(ch) {
                self.glyph(cx, y, rows, color, scale);
            }
            cx = cx + 8 * scale;
        }
        proof {
            assert(text@.take(n as int) =~= text@);
        }
    }

    /// Draws a bitmap, each set dot a square of `scale` pixels.
    pub fn glyph(&mut self, x: usize, y: usize, rows: [u8; 8], color: u32, scale: usize)
        requires
            old(self).wf(),
            x + 8 * scale <= usize::MAX,
            y + 8 * scale <= usize::MAX,
        ensures
            final(self).wf(),
            final(self)@ == raster::drawn(
                old(self)@,
                font::glyph_paint(rows@, x as int, y as int, scale as int, raster::solid(color)),
            ),
            final(final(self).buf)@ == final(old(self).buf)@,
    {
        let ghost p = self@;
        let ghost ink = raster::solid(color);
        let ghost (gx, gy, gs) = (x as int, y as int, scale as int);
        proof {
            font::lemma_glyph_starts(p, rows@, gx, gy, gs, ink);
        }
        for row in 0..8usize
            invariant
                self.wf(),
                p == old(self)@,
                (gx, gy, gs) == (x as int, y as int, scale as int),
                x + 8 * scale <= usize::MAX,
                y + 8 * scale <= usize::MAX,
                ink == raster::solid(color),
                self@ == raster::drawn(
                    p,
                    font::glyph_upto(rows@, gx, gy, gs, ink, row as int, 0),
                ),
                final(self.buf)@ == final(old(self).buf)@,
        {
            let bits: u8 = rows[row];
            for col in 0..8usize
                invariant
                    self.wf(),
                    p == old(self)@,
                    (gx, gy, gs) == (x as int, y as int, scale as int),
                    x + 8 * scale <= usize::MAX,
                    y + 8 * scale <= usize::MAX,
                    ink == raster::solid(color),
                    0 <= row < 8,
                    bits == rows@[row as int],
                    self@ == raster::drawn(
                        p,
                        font::glyph_upto(rows@, gx, gy, gs, ink, row as int, col as int),
                    ),
                    final(self.buf)@ == final(old(self).buf)@,
            {
                proof {
                    font::lemma_glyph_step(p, rows@, gx, gy, gs, ink, row as int, col as int);
                }
                if bits & (1u8 << col) != 0 {
                    assert(0 <= col * scale <= 8 * scale - scale) by (nonlinear_arith)
                        requires
                            0 <= col < 8,
                            0 <= scale,
                    ;
                    assert(0 <= row * scale <= 8 * scale - scale) by (nonlinear_arith)
                        requires
                            0 <= row < 8,
                            0 <= scale,
                    ;
                    self.fill_cell(x + col * scale, y + row * scale, scale, color);
                }
            }
            proof {
                font::lemma_glyph_row(p, rows@, gx, gy, gs, ink, row as int);
            }
        }
        proof {
            font::lemma_glyph_ends(p, rows@, gx, gy, gs, ink);
        }
    }

    fn fill_cell(&mut self, x: usize, y: usize, scale: usize, color: u32)
        requires
            old(self).wf(),
            x + scale <= usize::MAX,
            y + scale <= usize::MAX,
        ensures
            final(self).wf(),
            final(self)@ == raster::drawn(
                old(self)@,
                raster::area(x as int, y as int, scale as int, scale as int, raster::solid(color)),
            ),
            final(final(self).buf)@ == final(old(self).buf)@,
    {
        let (w, h) = (self.w, self.h);
        let mut cell = hud::Canvas { buf: &mut *self.buf, w, h };
        cell.fill(x, y, scale, scale, color);
    }
}

// Where the letters of a text are inked, the shadow of what follows it is not.
proof fn lemma_shadow_apart(
    a: Seq<char>,
    b: Seq<char>,
    x: int,
    y: int,
    color: u32,
    scale: int,
    px: int,
    py: int,
    c: u32,
)
    ensures
        ({
            let next = x + (8 * a.len()) * scale;
            let letters = font::text_paint(a, x, y, scale, raster::solid(color));
            let shadow = font::text_paint(b, next + 1, y + 1, scale, raster::solid(BLACK));
            letters(px, py, shadow(px, py, c)) == shadow(px, py, letters(px, py, c))
        }),
{
    if scale > 0 {
        font::lemma_shifted_dot(px, x, scale, 8 * a.len() as int);
    }
}

/// Drawing a line of text is drawing its first part and then its second part, as many
/// columns to the right as the first part takes. Neither part's shadow falls on the
/// letters of the other.
pub proof fn text_is_drawn_part_by_part(
    p: Picture,
    x: int,
    y: int,
    a: Seq<char>,
    b: Seq<char>,
    color: u32,
    scale: int,
)
    ensures
        with_text(p, x, y, a + b, color, scale) == with_text(
            with_text(p, x, y, a, color, scale),
            x + (8 * a.len()) * scale,
            y,
            b,
            color,
            scale,
        ),
{
    let next = x + (8 * a.len()) * scale;
    let (black, ink) = (raster::solid(BLACK), raster::solid(color));
    let shadow = font::text_paint(a + b, x + 1, y + 1, scale, black);
    let letters = font::text_paint(a + b, x, y, scale, ink);
    let (sa, la) = (
        font::text_paint(a, x + 1, y + 1, scale, black),
        font::text_paint(a, x, y, scale, ink),
    );
    let (sb, lb) = (
        font::text_paint(b, next + 1, y + 1, scale, black),
        font::text_paint(b, next, y, scale, ink),
    );
    font::lemma_text_joined(a, b, x + 1, y + 1, scale, black, p.w, p.h);
    font::lemma_text_joined(a, b, x, y, scale, ink, p.w, p.h);
    assert(x + 1 + (8 * a.len()) * scale == next + 1);
    let whole = raster::over(shadow, letters);
    let parts = raster::over(raster::over(raster::over(sa, la), sb), lb);
    assert forall|px: int, py: int, c: u32| 0 <= px < p.w && 0 <= py < p.h implies (
    #[trigger] parts(px, py, c)) == whole(px, py, c) by {
        let d = sa(px, py, c);
        assert(raster::over(sa, sb)(px, py, c) == shadow(px, py, c));
        assert(raster::over(la, lb)(px, py, sb(px, py, d)) == letters(px, py, sb(px, py, d)));
        lemma_shadow_apart(a, b, x, y, color, scale, px, py, d);
    }
    raster::lemma_over(p, shadow, letters);
    raster::lemma_over(p, sa, la);
    raster::lemma_over(p, raster::over(sa, la), sb);
    raster::lemma_over(p, raster::over(raster::over(sa, la), sb), lb);
    raster::lemma_same_paint(p, parts, whole);
}

/// What is seen of overlay text: its own pixels in its color, those that it would cover
/// one pixel further down and to the right in black, and the others as they were.
pub proof fn text_has_a_shadow(
    p: Picture,
    x: int,
    y: int,
    text: Seq<char>,
    color: u32,
    scale: int,
    px: int,
    py: int,
)
    requires
        p.w * p.h <= p.px.len(),
        0 <= px < p.w,
        0 <= py < p.h,
    ensures
        ({
            let was = p.px[py * p.w + px];
            let now = with_text(p, x, y, text, color, scale).px[py * p.w + px];
            let letter = hud::text_covers(text, x, y, scale, px, py);
            let shadow = hud::text_covers(text, x, y, scale, px - 1, py - 1);
            &&& letter ==> now == color
            &&& !letter && shadow ==> now == 0
            &&& !letter && !shadow ==> now == was
        }),
{
    let f = font::text_paint(text, x + 1, y + 1, scale, raster::solid(BLACK));
    let g = font::text_paint(text, x, y, scale, raster::solid(color));
    raster::drawn_pixel(p, f, px, py);
    raster::drawn_pixel(raster::drawn(p, f), g, px, py);
}

} // verus!
