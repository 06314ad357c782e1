//! Pictures, and what drawing does to them.
//!
//! A framebuffer is a row-major sequence of `0x00RRGGBB` pixels. Drawing is
//! described by a *paint*: a function from a pixel's column, its row and its old
//! color to its new color.

use crate::color;
use vstd::arithmetic::div_mod::{
    lemma_fundamental_div_mod, lemma_fundamental_div_mod_converse,
};
use vstd::prelude::*;

verus! {

/// A framebuffer: the pixels, and the columns and rows that are drawn on.
pub struct Picture {
    pub w: nat,
    pub h: nat,
    pub px: Seq<u32>,
}

/// From column, row and old color to new color.
pub type Paint = spec_fn(int, int, u32) -> u32;

/// The picture with every pixel painted.
pub open spec fn drawn(p: Picture, f: Paint) -> Picture {
    Picture {
        w: p.w,
        h: p.h,
        px: Seq::new(
            p.px.len(),
            |i: int|
                if i < p.w * p.h {
                    f(i % p.w as int, i / p.w as int, p.px[i])
                } else {
                    p.px[i]
                },
        ),
    }
}

/// One paint after another.
pub open spec fn over(f: Paint, g: Paint) -> Paint {
    |x: int, y: int, c: u32| g(x, y, f(x, y, c))
}

/// Whether two paints do the same on a picture of that size.
pub open spec fn same_paint(f: Paint, g: Paint, w: nat, h: nat) -> bool {
    forall|x: int, y: int, c: u32| 0 <= x < w && 0 <= y < h ==> #[trigger] f(x, y, c) == g(x, y, c)
}

/// Leaves every pixel as it is.
pub open spec fn untouched() -> Paint {
    |x: int, y: int, c: u32| c
}

/// From old color to new color.
pub type Ink = spec_fn(u32) -> u32;

/// Covers what was there.
pub open spec fn solid(color: u32) -> Ink {
    |c: u32| color
}

/// Lets what was there shine through, by opacity `a` of 255.
pub open spec fn glaze(color: u32, a: int) -> Ink {
    |c: u32| color::blended(c, color, a)
}

/// Inks a rectangle.
pub open spec fn area(x: int, y: int, w: int, h: int, ink: Ink) -> Paint {
    |px: int, py: int, c: u32|
        if x <= px < x + w && y <= py < y + h {
            ink(c)
        } else {
            c
        }
}

/// Inks the first `rows` rows of a rectangle, and `cols` pixels of the next one.
pub open spec fn swept(x: int, y: int, w: int, rows: int, cols: int, ink: Ink) -> Paint {
    |px: int, py: int, c: u32|
        if (x <= px < x + w && y <= py < y + rows) || (x <= px < x + cols && py == y + rows) {
            ink(c)
        } else {
            c
        }
}

/// A pixel of the picture, by column and row.
pub open spec fn pixel(p: Picture, x: int, y: int) -> u32 {
    p.px[y * p.w + x]
}

/// Column and row of an index.
pub proof fn lemma_position(i: int, w: int, h: int)
    requires
        0 <= i < w * h,
        0 < w,
    ensures
        0 <= i % w < w,
        0 <= i / w < h,
        i == (i / w) * w + i % w,
{
    lemma_fundamental_div_mod(i, w);
    assert((i / w) * w == w * (i / w)) by (nonlinear_arith);
    assert(0 <= i / w) by (nonlinear_arith)
        requires
            0 <= i,
            0 < w,
    ;
    assert(i / w < h) by (nonlinear_arith)
        requires
            i < w * h,
            0 < w,
            i == w * (i / w) + i % w,
            0 <= i % w,
    ;
}

/// The index of a column and row, and its own column and row.
pub proof fn lemma_index(x: int, y: int, w: int, h: int)
    requires
        0 <= x < w,
        0 <= y < h,
    ensures
        0 <= y * w + x < w * h,
        (y * w + x) % w == x,
        (y * w + x) / w == y,
{
    lemma_fundamental_div_mod_converse(y * w + x, w, y, x);
    assert(0 <= y * w) by (nonlinear_arith)
        requires
            0 <= y,
            0 < w,
    ;
    assert(y * w + x < w * h) by (nonlinear_arith)
        requires
            y + 1 <= h,
            x < w,
            0 < w,
    ;
}

/// An index is that of a column and row exactly where its own column and row are those.
pub proof fn lemma_same_place(i: int, x: int, y: int, w: int, h: int)
    requires
        0 <= i < w * h,
        0 <= x < w,
        0 <= y < h,
    ensures
        i == y * w + x <==> (i % w == x && i / w == y),
{
    lemma_position(i, w, h);
    lemma_index(x, y, w, h);
}

/// A nonempty picture has at least one column.
pub proof fn lemma_some_columns(i: int, w: nat, h: nat)
    requires
        0 <= i < w * h,
    ensures
        0 < w,
        0 < h,
{
    assert(0 < w && 0 < h) by (nonlinear_arith)
        requires
            0 <= i < w * h,
            0 <= w,
            0 <= h,
    ;
}

/// Paints that do the same give the same picture.
pub proof fn lemma_same_paint(p: Picture, f: Paint, g: Paint)
    requires
        same_paint(f, g, p.w, p.h),
    ensures
        drawn(p, f) == drawn(p, g),
{
    let (a, b) = (drawn(p, f), drawn(p, g));
    assert forall|i: int| 0 <= i < p.px.len() implies a.px[i] == b.px[i] by {
        if i < p.w * p.h {
            lemma_some_columns(i, p.w, p.h);
            lemma_position(i, p.w as int, p.h as int);
            let (x, y) = (i % p.w as int, i / p.w as int);
            assert(f(x, y, p.px[i]) == g(x, y, p.px[i]));
        }
    }
    assert(a.px =~= b.px);
}

/// Drawing twice is drawing once with one paint over the other.
pub proof fn lemma_over(p: Picture, f: Paint, g: Paint)
    ensures
        drawn(drawn(p, f), g) == drawn(p, over(f, g)),
{
    assert(drawn(drawn(p, f), g).px =~= drawn(p, over(f, g)).px);
}

/// One more paint that takes `f` to `g`.
pub proof fn lemma_then(p: Picture, f: Paint, step: Paint, g: Paint)
    requires
        same_paint(over(f, step), g, p.w, p.h),
    ensures
        drawn(drawn(p, f), step) == drawn(p, g),
{
    lemma_over(p, f, step);
    lemma_same_paint(p, over(f, step), g);
}

/// Four more paints that take `f` to `g`.
pub proof fn lemma_then_four(
    p: Picture,
    f: Paint,
    a: Paint,
    b: Paint,
    c: Paint,
    d: Paint,
    g: Paint,
)
    requires
        same_paint(over(over(over(over(f, a), b), c), d), g, p.w, p.h),
    ensures
        drawn(drawn(drawn(drawn(drawn(p, f), a), b), c), d) == drawn(p, g),
{
    lemma_over(p, f, a);
    lemma_over(p, over(f, a), b);
    lemma_over(p, over(over(f, a), b), c);
    lemma_then(p, over(over(over(f, a), b), c), d, g);
}

/// A paint that changes nothing gives the picture back.
pub proof fn lemma_untouched(p: Picture, f: Paint)
    requires
        same_paint(f, untouched(), p.w, p.h),
    ensures
        drawn(p, f) == p,
{
    lemma_same_paint(p, f, untouched());
    assert(drawn(p, untouched()).px =~= p.px);
}

/// Storing one pixel is a paint that changes that pixel alone.
pub proof fn lemma_set_pixel(p: Picture, x: int, y: int, color: u32, f: Paint)
    requires
        0 <= x < p.w,
        0 <= y < p.h,
        p.w * p.h <= p.px.len(),
        f(x, y, pixel(p, x, y)) == color,
        forall|px: int, py: int, c: u32| px != x || py != y ==> #[trigger] f(px, py, c) == c,
    ensures
        drawn(p, f) == (Picture { px: p.px.update(y * p.w + x, color), ..p }),
{
    let i0 = y * p.w + x;
    lemma_index(x, y, p.w as int, p.h as int);
    assert forall|i: int| 0 <= i < p.px.len() implies drawn(p, f).px[i] == p.px.update(
        i0,
        color,
    )[i] by {
        if i < p.w * p.h {
            lemma_same_place(i, x, y, p.w as int, p.h as int);
        }
    }
    assert(drawn(p, f).px =~= p.px.update(i0, color));
}

/// Sweeping a rectangle: nothing is inked at first.
pub proof fn lemma_sweep_starts(p: Picture, x: int, y: int, w: int, ink: Ink)
    ensures
        drawn(p, swept(x, y, w, 0, 0, ink)) == p,
{
    lemma_untouched(p, swept(x, y, w, 0, 0, ink));
}

/// One more pixel extends the row.
pub proof fn lemma_sweep_step(
    p: Picture,
    x: int,
    y: int,
    w: int,
    rows: int,
    cols: int,
    ink: Ink,
)
    requires
        0 <= rows,
        0 <= cols < w,
    ensures
        drawn(
            drawn(p, swept(x, y, w, rows, cols, ink)),
            area(x + cols, y + rows, 1, 1, ink),
        ) == drawn(p, swept(x, y, w, rows, cols + 1, ink)),
{
    lemma_then(
        p,
        swept(x, y, w, rows, cols, ink),
        area(x + cols, y + rows, 1, 1, ink),
        swept(x, y, w, rows, cols + 1, ink),
    );
}

/// A full row starts the next one.
pub proof fn lemma_sweep_row(p: Picture, x: int, y: int, w: int, rows: int, ink: Ink)
    requires
        0 <= rows,
        0 <= w,
    ensures
        drawn(p, swept(x, y, w, rows, w, ink)) == drawn(p, swept(x, y, w, rows + 1, 0, ink)),
{
    lemma_same_paint(p, swept(x, y, w, rows, w, ink), swept(x, y, w, rows + 1, 0, ink));
}

/// All rows are the rectangle.
pub proof fn lemma_sweep_ends(p: Picture, x: int, y: int, w: int, h: int, ink: Ink)
    ensures
        drawn(p, swept(x, y, w, h, 0, ink)) == drawn(p, area(x, y, w, h, ink)),
{
    lemma_same_paint(p, swept(x, y, w, h, 0, ink), area(x, y, w, h, ink));
}

/// What a paint does to one pixel.
pub proof fn drawn_pixel(p: Picture, f: Paint, x: int, y: int)
    requires
        0 <= x < p.w,
        0 <= y < p.h,
        p.w * p.h <= p.px.len(),
    ensures
        pixel(drawn(p, f), x, y) == f(x, y, pixel(p, x, y)),
{
    lemma_index(x, y, p.w as int, p.h as int);
}

/// Whether a picture has the size of another and agrees with it past the drawn rows.
pub open spec fn same_frame(p: Picture, q: Picture) -> bool {
    &&& p.w == q.w
    &&& p.h == q.h
    &&& p.px.len() == q.px.len()
    &&& forall|i: int| p.w * p.h <= i < p.px.len() ==> #[trigger] p.px[i] == q.px[i]
}

/// Drawing keeps the size, and everything past the drawn rows.
pub proof fn drawing_stays_on_canvas(p: Picture, f: Paint)
    ensures
        same_frame(p, drawn(p, f)),
{
}

/// Pixels lie row by row: drawing with a paint changes the pixel at column `x` and row
/// `y`, which is `y` rows of pixels and `x` more into the sequence, as the paint says.
pub proof fn pixels_lie_row_by_row(p: Picture, f: Paint, x: int, y: int)
    requires
        0 <= x < p.w,
        0 <= y < p.h,
        p.w * p.h <= p.px.len(),
    ensures
        drawn(p, f).px[y * p.w + x] == f(x, y, p.px[y * p.w + x]),
        pixel(p, x, y) == p.px[y * p.w + x],
        drawn(p, f).w == p.w && drawn(p, f).h == p.h,
        drawn(p, f).px.len() == p.px.len(),
{
    drawn_pixel(p, f, x, y);
}

/// A rectangle of `w` columns and `h` rows from (`x`, `y`) on is inked, and nothing else;
/// solid ink covers, and glazing blends.
pub proof fn area_is_a_rectangle(
    x: int,
    y: int,
    w: int,
    h: int,
    color: u32,
    a: int,
    dx: int,
    dy: int,
    c: u32,
)
    ensures
        0 <= dx < w && 0 <= dy < h ==> area(x, y, w, h, solid(color))(x + dx, y + dy, c) == color,
        !(0 <= dx < w && 0 <= dy < h) ==> area(x, y, w, h, solid(color))(x + dx, y + dy, c) == c,
        0 <= dx < w && 0 <= dy < h ==> area(x, y, w, h, glaze(color, a))(x + dx, y + dy, c)
            == color::blended(c, color, a),
        !(0 <= dx < w && 0 <= dy < h) ==> area(x, y, w, h, glaze(color, a))(x + dx, y + dy, c)
            == c,
{
}

} // verus!
