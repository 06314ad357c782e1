//! Text in the embedded 8x8 font.

use crate::raster;
use crate::raster::{Ink, Paint, Picture};
use font8x8::{UnicodeFonts, BASIC_FONTS};
use vstd::arithmetic::div_mod::{lemma_fundamental_div_mod, lemma_fundamental_div_mod_converse};
use vstd::prelude::*;

verus! {

/// The bitmap of a character in the basic font: eight rows, top first, the least
/// significant bit of a row on the left.
pub uninterp spec fn basic_glyph(c: char) -> Option<Seq<u8>>;

/// The bitmap of a character, by `font8x8::UnicodeFonts::get` on
/// `font8x8::BASIC_FONTS`, whose table holds U+0000 to U+007F and nothing else.
#[verifier::external_body]
pub(crate) fn glyph_of(c: char) -> (g: Option<[u8; 8]>)
    ensures
        basic_glyph(c) == (match g {
            Some(rows) => Some(rows@),
            None => None,
        }),
        g is Some <==> c as u32 <= 0x7F,
{
    BASIC_FONTS.get(c)
}

/// Whether the bit for a column is set in a row of a bitmap.
pub open spec fn bit(row: u8, col: int) -> bool {
    row & (1u8 << (col as usize)) != 0
}

/// Whether the dot of a bitmap at that column and row is set.
pub open spec fn glyph_dot(rows: Seq<u8>, col: int, row: int) -> bool {
    0 <= col < 8 && 0 <= row < 8 && bit(rows[row], col)
}

/// Whether the dot of a line of text at that column and row is set: eight columns
/// per character, blank where the font has no bitmap.
pub open spec fn text_dot(text: Seq<char>, col: int, row: int) -> bool {
    &&& 0 <= col < 8 * text.len()
    &&& basic_glyph(text[col / 8]) matches Some(rows) && glyph_dot(rows, col % 8, row)
}

/// The dot, counted from `from`, that a coordinate falls on.
pub open spec fn dot_of(at: int, from: int, scale: int) -> int {
    (at - from) / scale
}

/// Inks the set dots of a bitmap, each a square of `scale` pixels.
pub open spec fn glyph_paint(rows: Seq<u8>, x: int, y: int, scale: int, ink: Ink) -> Paint {
    |px: int, py: int, c: u32|
        if scale > 0 && px >= x && py >= y && glyph_dot(
            rows,
            dot_of(px, x, scale),
            dot_of(py, y, scale),
        ) {
            ink(c)
        } else {
            c
        }
}

/// Inks the set dots of a line of text, each a square of `scale` pixels.
pub open spec fn text_paint(text: Seq<char>, x: int, y: int, scale: int, ink: Ink) -> Paint {
    |px: int, py: int, c: u32|
        if scale > 0 && px >= x && py >= y && text_dot(
            text,
            dot_of(px, x, scale),
            dot_of(py, y, scale),
        ) {
            ink(c)
        } else {
            c
        }
}

/// The part of a bitmap's paint that comes before a row and a column.
pub open spec fn glyph_upto(
    rows: Seq<u8>,
    x: int,
    y: int,
    scale: int,
    ink: Ink,
    row: int,
    col: int,
) -> Paint {
    |px: int, py: int, c: u32|
        if scale > 0 && px >= x && py >= y && glyph_dot(
            rows,
            dot_of(px, x, scale),
            dot_of(py, y, scale),
        ) && (dot_of(py, y, scale) < row || (dot_of(py, y, scale) == row && dot_of(px, x, scale)
            < col)) {
            ink(c)
        } else {
            c
        }
}

/// The pixels of a dot.
pub proof fn lemma_dot(at: int, from: int, scale: int, d: int)
    requires
        scale > 0,
        d >= 0,
    ensures
        (at >= from && dot_of(at, from, scale) == d) <==> from + d * scale <= at < from + d * scale
            + scale,
        from <= from + d * scale,
{
    let v = at - from;
    assert(0 <= d * scale) by (nonlinear_arith)
        requires
            0 <= d,
            0 < scale,
    ;
    if v >= 0 {
        lemma_fundamental_div_mod(v, scale);
        assert(scale * (v / scale) == (v / scale) * scale) by (nonlinear_arith);
    }
    if d * scale <= v < d * scale + scale {
        lemma_fundamental_div_mod_converse(v, scale, d, v - d * scale);
    }
}

/// Nothing of a bitmap is inked at first.
pub proof fn lemma_glyph_starts(
    p: Picture,
    rows: Seq<u8>,
    x: int,
    y: int,
    scale: int,
    ink: Ink,
)
    ensures
        raster::drawn(p, glyph_upto(rows, x, y, scale, ink, 0, 0)) == p,
{
    raster::lemma_untouched(p, glyph_upto(rows, x, y, scale, ink, 0, 0));
}

/// Inking a set dot, or passing over a clear one, extends the paint by that dot.
pub proof fn lemma_glyph_step(
    p: Picture,
    rows: Seq<u8>,
    x: int,
    y: int,
    scale: int,
    ink: Ink,
    row: int,
    col: int,
)
    requires
        0 <= row < 8,
        0 <= col < 8,
        scale >= 0,
    ensures
        ({
            let was = raster::drawn(p, glyph_upto(rows, x, y, scale, ink, row, col));
            let next = raster::drawn(p, glyph_upto(rows, x, y, scale, ink, row, col + 1));
            if bit(rows[row], col) {
                next == raster::drawn(
                    was,
                    raster::area(x + col * scale, y + row * scale, scale, scale, ink),
                )
            } else {
                next == was
            }
        }),
{
    let f = glyph_upto(rows, x, y, scale, ink, row, col);
    let g = glyph_upto(rows, x, y, scale, ink, row, col + 1);
    let step = raster::area(x + col * scale, y + row * scale, scale, scale, ink);
    if bit(rows[row], col) {
        assert forall|px: int, py: int, c: u32| 0 <= px < p.w && 0 <= py < p.h implies (
        #[trigger] raster::over(f, step)(px, py, c)) == g(px, py, c) by {
            if scale > 0 {
                lemma_dot(px, x, scale, col);
                lemma_dot(py, y, scale, row);
            }
        }
        raster::lemma_then(p, f, step, g);
    } else {
        assert forall|px: int, py: int, c: u32| 0 <= px < p.w && 0 <= py < p.h implies (
        #[trigger] f(px, py, c)) == g(px, py, c) by {}
        raster::lemma_same_paint(p, f, g);
    }
}

/// A full row starts the next one.
pub proof fn lemma_glyph_row(
    p: Picture,
    rows: Seq<u8>,
    x: int,
    y: int,
    scale: int,
    ink: Ink,
    row: int,
)
    ensures
        raster::drawn(p, glyph_upto(rows, x, y, scale, ink, row, 8)) == raster::drawn(
            p,
            glyph_upto(rows, x, y, scale, ink, row + 1, 0),
        ),
{
    raster::lemma_same_paint(
        p,
        glyph_upto(rows, x, y, scale, ink, row, 8),
        glyph_upto(rows, x, y, scale, ink, row + 1, 0),
    );
}

/// All rows are the bitmap.
pub proof fn lemma_glyph_ends(p: Picture, rows: Seq<u8>, x: int, y: int, scale: int, ink: Ink)
    ensures
        raster::drawn(p, glyph_upto(rows, x, y, scale, ink, 8, 0)) == raster::drawn(
            p,
            glyph_paint(rows, x, y, scale, ink),
        ),
{
    raster::lemma_same_paint(
        p,
        glyph_upto(rows, x, y, scale, ink, 8, 0),
        glyph_paint(rows, x, y, scale, ink),
    );
}

/// Dots counted from `k` dots further right.
pub proof fn lemma_shifted_dot(px: int, x: int, scale: int, k: int)
    requires
        scale > 0,
        k >= 0,
    ensures
        px >= x + k * scale <==> (px >= x && dot_of(px, x, scale) >= k),
        px >= x ==> dot_of(px, x + k * scale, scale) == dot_of(px, x, scale) - k,
{
    let v = px - x;
    assert(0 <= k * scale) by (nonlinear_arith)
        requires
            0 <= k,
            0 < scale,
    ;
    if v >= 0 {
        lemma_fundamental_div_mod(v, scale);
        let q = v / scale;
        assert(scale * q == q * scale) by (nonlinear_arith);
        assert((q - k) * scale == q * scale - k * scale) by (nonlinear_arith);
        lemma_fundamental_div_mod_converse(v - k * scale, scale, q - k, v % scale);
        if q >= k {
            assert(q * scale >= k * scale) by (nonlinear_arith)
                requires
                    q >= k,
                    scale > 0,
            ;
        } else {
            assert(q * scale + scale <= k * scale) by (nonlinear_arith)
                requires
                    q + 1 <= k,
                    scale > 0,
            ;
        }
    }
}

/// No character is inked at first.
pub proof fn lemma_text_starts(p: Picture, text: Seq<char>, x: int, y: int, scale: int, ink: Ink)
    ensures
        raster::drawn(p, text_paint(text.take(0), x, y, scale, ink)) == p,
{
    raster::lemma_untouched(p, text_paint(text.take(0), x, y, scale, ink));
}

/// Inking the bitmap of the next character extends the paint by that character.
pub proof fn lemma_text_step(
    p: Picture,
    text: Seq<char>,
    x: int,
    y: int,
    scale: int,
    ink: Ink,
    k: int,
)
    requires
        0 <= k < text.len(),
        scale >= 0,
    ensures
        ({
            let was = raster::drawn(p, text_paint(text.take(k), x, y, scale, ink));
            let next = raster::drawn(p, text_paint(text.take(k + 1), x, y, scale, ink));
            match basic_glyph(text[k]) {
                Some(rows) => next == raster::drawn(
                    was,
                    glyph_paint(rows, x + (8 * k) * scale, y, scale, ink),
                ),
                None => next == was,
            }
        }),
{
    let f = text_paint(text.take(k), x, y, scale, ink);
    let g = text_paint(text.take(k + 1), x, y, scale, ink);
    match basic_glyph(text[k]) {
        Some(rows) => {
            let step = glyph_paint(rows, x + (8 * k) * scale, y, scale, ink);
            assert forall|px: int, py: int, c: u32| 0 <= px < p.w && 0 <= py < p.h implies (
            #[trigger] raster::over(f, step)(px, py, c)) == g(px, py, c) by {
                if scale > 0 {
                    lemma_shifted_dot(px, x, scale, 8 * k);
                }
            }
            raster::lemma_then(p, f, step, g);
        },
        None => {
            assert forall|px: int, py: int, c: u32| 0 <= px < p.w && 0 <= py < p.h implies (
            #[trigger] f(px, py, c)) == g(px, py, c) by {}
            raster::lemma_same_paint(p, f, g);
        },
    }
}

/// The paint of a line of text is that of its first part, and over it that of its
/// second part, moved right by the eight dots that each character before it takes.
pub proof fn lemma_text_joined(
    a: Seq<char>,
    b: Seq<char>,
    x: int,
    y: int,
    scale: int,
    ink: Ink,
    w: nat,
    h: nat,
)
    ensures
        raster::same_paint(
            raster::over(
                text_paint(a, x, y, scale, ink),
                text_paint(b, x + (8 * a.len()) * scale, y, scale, ink),
            ),
            text_paint(a + b, x, y, scale, ink),
            w,
            h,
        ),
{
    let n: int = 8 * a.len() as int;
    let f = text_paint(a, x, y, scale, ink);
    let g = text_paint(b, x + (8 * a.len()) * scale, y, scale, ink);
    let whole = text_paint(a + b, x, y, scale, ink);
    assert forall|px: int, py: int, c: u32| 0 <= px < w && 0 <= py < h implies (
    #[trigger] raster::over(f, g)(px, py, c)) == whole(px, py, c) by {
        if scale > 0 {
            lemma_shifted_dot(px, x, scale, n);
            let d = dot_of(px, x, scale);
            if px >= x && d >= n {
                assert((d - n) / 8 == d / 8 - a.len());
                assert((d - n) % 8 == d % 8);
                assert(d < 8 * (a + b).len() ==> (a + b)[d / 8] == b[(d - n) / 8]);
            }
        }
    }
}

/// Drawing a line of text is drawing its first part and then its second part, as
/// many columns to the right as the first part takes: eight dots per character.
pub proof fn text_is_drawn_part_by_part(
    p: Picture,
    a: Seq<char>,
    b: Seq<char>,
    x: int,
    y: int,
    scale: int,
    ink: Ink,
)
    ensures
        raster::drawn(p, text_paint(a + b, x, y, scale, ink)) == raster::drawn(
            raster::drawn(p, text_paint(a, x, y, scale, ink)),
            text_paint(b, x + (8 * a.len()) * scale, y, scale, ink),
        ),
{
    lemma_text_joined(a, b, x, y, scale, ink, p.w, p.h);
    raster::lemma_then(
        p,
        text_paint(a, x, y, scale, ink),
        text_paint(b, x + (8 * a.len()) * scale, y, scale, ink),
        text_paint(a + b, x, y, scale, ink),
    );
}

/// A character without a bitmap draws nothing, and what follows it starts eight dots
/// further right.
pub proof fn missing_character_is_a_gap(
    p: Picture,
    c: char,
    rest: Seq<char>,
    x: int,
    y: int,
    scale: int,
    ink: Ink,
)
    ensures
        basic_glyph(c) is None ==> raster::drawn(p, text_paint(seq![c], x, y, scale, ink)) == p,
        basic_glyph(c) is None ==> raster::drawn(
            p,
            text_paint(seq![c] + rest, x, y, scale, ink),
        ) == raster::drawn(p, text_paint(rest, x + 8 * scale, y, scale, ink)),
{
    if basic_glyph(c) is None {
        raster::lemma_untouched(p, text_paint(seq![c], x, y, scale, ink));
    }
    text_is_drawn_part_by_part(p, seq![c], rest, x, y, scale, ink);
}

/// A line of text inks each pixel of the picture once or not at all, and only pixels
/// in its box: eight dots per character wide, and eight dots high. What lies behind
/// the picture's last row stays as it is.
pub proof fn text_stays_in_its_box(
    p: Picture,
    text: Seq<char>,
    x: int,
    y: int,
    scale: int,
    ink: Ink,
    px: int,
    py: int,
)
    requires
        0 <= px < p.w,
        0 <= py < p.h,
        p.w * p.h <= p.px.len(),
    ensures
        ({
            let was = raster::pixel(p, px, py);
            let now = raster::pixel(raster::drawn(p, text_paint(text, x, y, scale, ink)), px, py);
            ||| now == was
            ||| now == ink(was) && x <= px < x + (8 * text.len()) * scale && y <= py < y + 8 * scale
        }),
        raster::drawn(p, text_paint(text, x, y, scale, ink)).px.len() == p.px.len(),
        forall|i: int|
            p.w * p.h <= i < p.px.len() ==> #[trigger] raster::drawn(
                p,
                text_paint(text, x, y, scale, ink),
            ).px[i] == p.px[i],
{
    raster::drawn_pixel(p, text_paint(text, x, y, scale, ink), px, py);
    if scale > 0 {
        lemma_shifted_dot(px, x, scale, 8 * text.len() as int);
        lemma_shifted_dot(py, y, scale, 8);
    }
}

/// A row of a bitmap read as a number has its dots as binary digits, the leftmost dot
/// being the lowest.
pub proof fn leftmost_dot_is_lowest_bit(row: u8)
    ensures
        bit(row, 0) == (row % 2 == 1),
        bit(row, 1) == (row / 2 % 2 == 1),
        bit(row, 2) == (row / 4 % 2 == 1),
        bit(row, 3) == (row / 8 % 2 == 1),
        bit(row, 4) == (row / 16 % 2 == 1),
        bit(row, 5) == (row / 32 % 2 == 1),
        bit(row, 6) == (row / 64 % 2 == 1),
        bit(row, 7) == (row / 128 % 2 == 1),
{
    assert((row & (1u8 << 0usize) != 0) == (row % 2 == 1) && (row & (1u8 << 1usize) != 0) == (row
        / 2 % 2 == 1) && (row & (1u8 << 2usize) != 0) == (row / 4 % 2 == 1) && (row & (1u8
        << 3usize) != 0) == (row / 8 % 2 == 1) && (row & (1u8 << 4usize) != 0) == (row / 16 % 2
        == 1) && (row & (1u8 << 5usize) != 0) == (row / 32 % 2 == 1) && (row & (1u8 << 6usize)
        != 0) == (row / 64 % 2 == 1) && (row & (1u8 << 7usize) != 0) == (row / 128 % 2 == 1))
        by (bit_vector);
}

/// The `k`th character takes the eight columns from `8 * k` on, and shows its own bitmap
/// there, the first row on top; left and right of the text, and above and below its eight
/// rows, there is nothing.
pub proof fn characters_stand_side_by_side(text: Seq<char>, k: int, col: int, row: int)
    requires
        0 <= col < 8,
        0 <= row < 8,
    ensures
        0 <= k < text.len() ==> match basic_glyph(text[k]) {
            Some(rows) => text_dot(text, 8 * k + col, row) == bit(rows[row], col),
            None => !text_dot(text, 8 * k + col, row),
        },
        k < 0 || k >= text.len() ==> !text_dot(text, 8 * k + col, row),
        !text_dot(text, 8 * k + col, row - 8),
        !text_dot(text, 8 * k + col, row + 8),
{
}

/// Each dot of a text is a square of `scale` pixels a side: the pixels of a set dot are
/// inked, those of any other stay.
pub proof fn dots_are_squares(
    text: Seq<char>,
    x: int,
    y: int,
    scale: int,
    ink: Ink,
    col: int,
    row: int,
    i: int,
    j: int,
    c: u32,
)
    requires
        0 <= i < scale,
        0 <= j < scale,
        0 <= col,
        0 <= row,
    ensures
        text_paint(text, x, y, scale, ink)(x + col * scale + i, y + row * scale + j, c)
            == if text_dot(text, col, row) {
            ink(c)
        } else {
            c
        },
        i > 0 ==> text_paint(text, x, y, scale, ink)(x - i, y + row * scale + j, c) == c,
        j > 0 ==> text_paint(text, x, y, scale, ink)(x + col * scale + i, y - j, c) == c,
{
    lemma_dot(x + col * scale + i, x, scale, col);
    lemma_dot(y + row * scale + j, y, scale, row);
}

/// A bitmap alone is drawn as a character is: dot by dot, each a square of `scale` pixels a
/// side, eight columns and eight rows of them.
pub proof fn bitmaps_are_drawn_dot_by_dot(
    rows: Seq<u8>,
    x: int,
    y: int,
    scale: int,
    ink: Ink,
    col: int,
    row: int,
    i: int,
    j: int,
    c: u32,
)
    requires
        0 <= i < scale,
        0 <= j < scale,
        0 <= col,
        0 <= row,
    ensures
        glyph_paint(rows, x, y, scale, ink)(x + col * scale + i, y + row * scale + j, c) == if col
            < 8 && row < 8 && bit(rows[row], col) {
            ink(c)
        } else {
            c
        },
        i > 0 ==> glyph_paint(rows, x, y, scale, ink)(x - i, y + row * scale + j, c) == c,
        j > 0 ==> glyph_paint(rows, x, y, scale, ink)(x + col * scale + i, y - j, c) == c,
{
    lemma_dot(x + col * scale + i, x, scale, col);
    lemma_dot(y + row * scale + j, y, scale, row);
}

} // verus!
