//! Decoded video: from a JPEG frame to pixels, and from the 240x320 picture to the
//! screen.

use crate::color;
use crate::color::{ch, rgb};
use crate::jpeg;
use crate::jpeg::is_decodable;
use crate::raster;
use crate::raster::{Paint, Picture};
use vstd::arithmetic::div_mod::{
    lemma_div_by_multiple_is_strongly_ordered, lemma_div_multiples_vanish,
    lemma_fundamental_div_mod, lemma_fundamental_div_mod_converse,
};
use vstd::prelude::*;
use zune_jpeg::JpegDecoder;

verus! {

/// Size of the drone's video.
pub const VIDEO_W: usize = 240;

pub const VIDEO_H: usize = 320;

/// Bytes of one decoded frame, three per pixel.
pub const VIDEO_BYTES: usize = 230_400;

/// The bytes that a JPEG decodes to, or nothing where it does not decode.
pub uninterp spec fn decoded(jpeg: Seq<u8>) -> Option<Seq<u8>>;

/// Decodes a JPEG by `zune_jpeg::JpegDecoder::new` and `decode` at the decoder's
/// default options; every error is the same to the caller. What comes out depends on
/// the JPEG's bytes alone. What `decodes_safely` leaves out are the files on which the
/// decoder may panic, also where it is built with debug assertions and overflow checks,
/// or may not return.
///
/// Not stated: that what comes out is what the JPEG standard asks for.
#[verifier::external_body]
pub(crate) fn decode(jpeg: &[u8]) -> (r: Option<Vec<u8>>)
    requires
        jpeg::decodes_safely(jpeg@),
    ensures
        decoded(jpeg@) == (match r {
            Some(bytes) => Some(bytes@),
            None => None,
        }),
{
    JpegDecoder::new(jpeg).decode().ok()
}

/// The `i`th pixel of a run of red, green and blue bytes.
pub open spec fn rgb_pixel(bytes: Seq<u8>, i: int) -> u32 {
    color::packed(bytes[3 * i] as int, bytes[3 * i + 1] as int, bytes[3 * i + 2] as int)
}

/// A picture with its pixels replaced from the front, as far as the bytes reach.
pub open spec fn with_rgb(vid: Seq<u32>, bytes: Seq<u8>) -> Seq<u32> {
    Seq::new(
        vid.len(),
        |i: int|
            if 3 * i + 2 < bytes.len() {
                rgb_pixel(bytes, i)
            } else {
                vid[i]
            },
    )
}

/// Puts decoded bytes into a picture if they make a whole video frame; otherwise
/// the picture stays as it is.
pub fn show_rgb(bytes: &[u8], vid: &mut [u32]) -> (ok: bool)
    ensures
        ok == (bytes@.len() >= VIDEO_BYTES),
        ok ==> final(vid)@ == with_rgb(old(vid)@, bytes@),
        !ok ==> final(vid)@ == old(vid)@,
{
    if bytes.len() < VIDEO_BYTES {
        return false;
    }
    let chunks: usize = bytes.len() / 3;
    let n: usize = if vid.len() < chunks {
        vid.len()
    } else {
        chunks
    };
    for i in 0..n
        invariant
            chunks == bytes.len() / 3,
            vid@.len() == old(vid)@.len(),
            n <= vid@.len(),
            n <= chunks,
            forall|j: int|
                0 <= j < vid@.len() ==> #[trigger] vid@[j] == if j < i {
                    rgb_pixel(bytes@, j)
                } else {
                    old(vid)@[j]
                },
    {
        vid[i] = rgb(bytes[3 * i] as u32, bytes[3 * i + 1] as u32, bytes[3 * i + 2] as u32);
    }
    assert(vid@ =~= with_rgb(old(vid)@, bytes@));
    true
}

/// Decodes a JPEG into the picture. Fails, and leaves the picture as it is, where
/// the decoder cannot be trusted with the JPEG, or does not decode it, or where it is
/// smaller than a video frame.
pub fn decode_into(jpeg: &[u8], vid: &mut [u32]) -> (ok: bool)
    ensures
        ok == (jpeg::decodes_safely(jpeg@) && (decoded(jpeg@) matches Some(bytes) && bytes.len()
            >= VIDEO_BYTES)),
        ok ==> final(vid)@ == with_rgb(old(vid)@, decoded(jpeg@)->0),
        !ok ==> final(vid)@ == old(vid)@,
{
    if !is_decodable(jpeg) {
        return false;
    }
    match decode(jpeg) {
        Some(bytes) => show_rgb(&bytes, vid),
        None => false,
    }
}

/// Where the scaled video starts along an axis: centered.
pub open spec fn margin(screen: int, shown: int) -> int {
    (screen - shown) / 2
}

/// The source pixel that is shown at column `dx` and row `dy` of the scaled video.
pub open spec fn source_index(dx: int, dy: int, dw: int, dh: int) -> int {
    (dy * VIDEO_H / dh) * VIDEO_W + dx * VIDEO_W / dw
}

/// Shows the video, scaled to `dw` by `dh` pixels, with its corner at (`ox`, `oy`).
pub open spec fn video_paint(vid: Seq<u32>, ox: int, oy: int, dw: int, dh: int) -> Paint {
    |x: int, y: int, c: u32|
        if ox <= x < ox + dw && oy <= y < oy + dh {
            vid[source_index(x - ox, y - oy, dw, dh)]
        } else {
            c
        }
}

spec fn video_upto(
    vid: Seq<u32>,
    ox: int,
    oy: int,
    dw: int,
    dh: int,
    rows: int,
    cols: int,
) -> Paint {
    |x: int, y: int, c: u32|
        if ox <= x < ox + dw && oy <= y < oy + dh && (y - oy < rows || (y - oy == rows && x - ox
            < cols)) {
            vid[source_index(x - ox, y - oy, dw, dh)]
        } else {
            c
        }
}

/// The screen with the video in its center, scaled to `dw` by `dh` pixels.
pub open spec fn with_video(p: Picture, vid: Seq<u32>, dw: int, dh: int) -> Picture {
    raster::drawn(
        p,
        video_paint(vid, margin(p.w as int, dw), margin(p.h as int, dh), dw, dh),
    )
}

proof fn lemma_source(d: int, n: int, source: int)
    requires
        0 <= d < n,
        0 < source,
    ensures
        0 <= d * source <= (n - 1) * source,
        0 <= d * source / n < source,
{
    assert(0 <= d * source <= (n - 1) * source) by (nonlinear_arith)
        requires
            0 <= d <= n - 1,
            0 < source,
    ;
    assert((n - 1) * source < source * n) by (nonlinear_arith)
        requires
            0 < source,
            0 < n,
    ;
    lemma_div_by_multiple_is_strongly_ordered(d * source, source * n, source, n);
    lemma_div_multiples_vanish(source, n);
    assert(n * source == source * n) by (nonlinear_arith);
    assert(0 <= d * source / n) by (nonlinear_arith)
        requires
            0 <= d * source,
            0 < n,
    ;
}

/// Scales the 240x320 video into `fb` (`w` by `h` pixels), `dw` by `dh` pixels
/// large and centered.
pub fn scale_video(fb: &mut [u32], w: usize, h: usize, vid: &[u32], dw: usize, dh: usize)
    requires
        w * h <= old(fb).len(),
        vid@.len() >= VIDEO_W * VIDEO_H,
        dw > 0 && dh > 0 ==> dw <= w && dh <= h,
        (dw - 1) * VIDEO_W <= usize::MAX,
        (dh - 1) * VIDEO_H <= usize::MAX,
    ensures
        ({
            let was = Picture { w: w as nat, h: h as nat, px: old(fb)@ };
            final(fb)@ == with_video(was, vid@, dw as int, dh as int).px
        }),
{
    let ghost p = Picture { w: w as nat, h: h as nat, px: fb@ };
    let ghost (gw, gh, dwi, dhi) = (w as int, h as int, dw as int, dh as int);
    let ghost (ox, oy) = (margin(gw, dwi), margin(gh, dhi));
    if dw == 0 || dh == 0 {
        proof {
            raster::lemma_untouched(p, video_paint(vid@, ox, oy, dwi, dhi));
        }
        return ;
    }
    let left: usize = (w - dw) / 2;
    let top: usize = (h - dh) / 2;
    proof {
        raster::lemma_untouched(p, video_upto(vid@, ox, oy, dwi, dhi, 0, 0));
    }
    for dy in 0..dh
        invariant
            p.w == w,
            p.h == h,
            w * h <= fb.len(),
            0 < dw <= w,
            0 < dh <= h,
            (dw - 1) * VIDEO_W <= usize::MAX,
            (dh - 1) * VIDEO_H <= usize::MAX,
            vid@.len() >= VIDEO_W * VIDEO_H,
            dwi == dw,
            dhi == dh,
            ox == left,
            oy == top,
            left + dw <= w,
            top + dh <= h,
            fb@ == raster::drawn(p, video_upto(vid@, ox, oy, dwi, dhi, dy as int, 0)).px,
    {
        proof {
            lemma_source(dy as int, dhi, VIDEO_H as int);
            raster::lemma_index(left as int, top + dy, w as int, h as int);
        }
        let sy: usize = dy * VIDEO_H / dh;
        let row: usize = (top + dy) * w + left;
        let srow: usize = sy * VIDEO_W;
        for dx in 0..dw
            invariant
                p.w == w,
                p.h == h,
                w * h <= fb.len(),
                0 < dw <= w,
                0 < dh <= h,
                dy < dh,
                (dw - 1) * VIDEO_W <= usize::MAX,
                vid@.len() >= VIDEO_W * VIDEO_H,
                dwi == dw,
                dhi == dh,
                ox == left,
                oy == top,
                left + dw <= w,
                top + dh <= h,
                sy == dy * VIDEO_H as int / dhi,
                sy < VIDEO_H,
                srow == sy * VIDEO_W,
                row == (top + dy) * w + left,
                fb@ == raster::drawn(
                    p,
                    video_upto(vid@, ox, oy, dwi, dhi, dy as int, dx as int),
                ).px,
        {
            let ghost was = Picture { w: w as nat, h: h as nat, px: fb@ };
            let ghost (x, y) = (left + dx, top + dy);
            proof {
                lemma_source(dx as int, dwi, VIDEO_W as int);
                raster::lemma_index(x, y, w as int, h as int);
            }
            let color: u32 = vid[srow + dx * VIDEO_W / dw];
            fb[row + dx] = color;
            proof {
                let f = video_upto(vid@, ox, oy, dwi, dhi, dy as int, dx as int);
                let g = video_upto(vid@, ox, oy, dwi, dhi, dy as int, dx + 1);
                let dot = raster::area(x, y, 1, 1, raster::solid(color));
                assert(color == vid@[source_index(x - ox, y - oy, dwi, dhi)]);
                raster::lemma_set_pixel(was, x, y, color, dot);
                assert(was == raster::drawn(p, f));
                raster::lemma_then(p, f, dot, g);
            }
        }
        proof {
            raster::lemma_same_paint(
                p,
                video_upto(vid@, ox, oy, dwi, dhi, dy as int, dwi),
                video_upto(vid@, ox, oy, dwi, dhi, dy + 1, 0),
            );
        }
    }
    proof {
        raster::lemma_same_paint(
            p,
            video_upto(vid@, ox, oy, dwi, dhi, dhi, 0),
            video_paint(vid@, ox, oy, dwi, dhi),
        );
    }
}

/// A pixel as the four bytes of an opaque RGBA surface.
pub open spec fn rgba(px: u32) -> Seq<u8> {
    seq![color::red(px) as u8, color::green(px) as u8, color::blue(px) as u8, 0xFFu8]
}

/// The first `n` pixels of row `y` of a framebuffer `w` pixels wide, as the bytes of
/// an RGBA surface.
pub fn rgba_row(fb: &[u32], w: usize, y: usize, n: usize) -> (out: Vec<u8>)
    requires
        y * w + n <= fb.len(),
    ensures
        out@.len() == 4 * n,
        forall|i: int, k: int|
            0 <= i < n && 0 <= k < 4 ==> #[trigger] rgba(fb@[y * w + i])[k] == out@[4 * i + k],
{
    assert(0 <= y * w) by (nonlinear_arith);
    let start: usize = y * w;
    let mut out: Vec<u8> = Vec::new();
    for x in 0..n
        invariant
            start == y * w,
            start + n <= fb.len(),
            out@.len() == 4 * x,
            forall|i: int, k: int|
                0 <= i < x && 0 <= k < 4 ==> #[trigger] rgba(fb@[start + i])[k] == out@[4 * i + k],
    {
        let px: u32 = fb[start + x];
        let ghost was = out@;
        out.push(ch(px, 16) as u8);
        out.push(ch(px, 8) as u8);
        out.push(ch(px, 0) as u8);
        out.push(0xFF);
        assert forall|i: int, k: int| 0 <= i < x + 1 && 0 <= k < 4 implies #[trigger] rgba(
            fb@[start + i],
        )[k] == out@[4 * i + k] by {
            if i < x {
                assert(out@[4 * i + k] == was[4 * i + k]);
            }
        }
    }
    out
}

/// Every pixel of the scaled video comes from inside the decoded frame.
pub proof fn scaled_video_reads_frame(dx: int, dy: int, dw: int, dh: int)
    requires
        0 <= dx < dw,
        0 <= dy < dh,
    ensures
        0 <= source_index(dx, dy, dw, dh) < VIDEO_W * VIDEO_H,
{
    lemma_source(dx, dw, VIDEO_W as int);
    lemma_source(dy, dh, VIDEO_H as int);
}

/// At its own size the video is shown pixel for pixel.
pub proof fn unscaled_video_is_copied(dx: int, dy: int)
    requires
        0 <= dx < VIDEO_W,
        0 <= dy < VIDEO_H,
    ensures
        source_index(dx, dy, VIDEO_W as int, VIDEO_H as int) == dy * VIDEO_W + dx,
{
}

/// The video is centered: the margins before and after it differ by at most one.
pub proof fn video_is_centered(screen: int, shown: int)
    requires
        0 <= shown <= screen,
    ensures
        0 <= margin(screen, shown),
        margin(screen, shown) + shown <= screen,
        0 <= (screen - shown - margin(screen, shown)) - margin(screen, shown) <= 1,
{
}

/// Decoding a frame that fills the picture leaves no pixel of the one before it.
pub proof fn whole_frame_replaces_picture(a: Seq<u32>, b: Seq<u32>, bytes: Seq<u8>)
    requires
        a.len() == b.len() <= VIDEO_W * VIDEO_H,
        bytes.len() >= VIDEO_BYTES,
    ensures
        with_rgb(a, bytes) == with_rgb(b, bytes),
{
    assert(with_rgb(a, bytes) =~= with_rgb(b, bytes));
}

proof fn lemma_quotient(a: int, n: int, q: int)
    requires
        0 < n,
        q * n <= a < (q + 1) * n,
    ensures
        a / n == q,
{
    assert((q + 1) * n == q * n + n) by (nonlinear_arith);
    lemma_fundamental_div_mod_converse(a, n, q, a - q * n);
}

/// Scaling keeps the picture's orientation and proportions at every size: the pixel `dx`
/// columns and `dy` rows into the shown video, whose margins are halved, is the one of the
/// frame at the column and the row that lie as far into it, rounded down.
pub proof fn video_keeps_proportions(
    p: Picture,
    vid: Seq<u32>,
    dw: int,
    dh: int,
    dx: int,
    dy: int,
    col: int,
    row: int,
)
    requires
        p.w * p.h <= p.px.len(),
        0 <= dx < dw <= p.w,
        0 <= dy < dh <= p.h,
        col * dw <= dx * 240 < (col + 1) * dw,
        row * dh <= dy * 320 < (row + 1) * dh,
    ensures
        0 <= col < 240,
        0 <= row < 320,
        with_video(p, vid, dw, dh).px[((p.h - dh) / 2 + dy) * p.w + ((p.w - dw) / 2 + dx)]
            == vid[row * 240 + col],
{
    lemma_quotient(dx * 240, dw, col);
    lemma_quotient(dy * 320, dh, row);
    lemma_source(dx, dw, 240);
    lemma_source(dy, dh, 320);
    let (x, y) = ((p.w - dw) / 2 + dx, (p.h - dh) / 2 + dy);
    raster::drawn_pixel(
        p,
        video_paint(vid, margin(p.w as int, dw), margin(p.h as int, dh), dw, dh),
        x,
        y,
    );
}

/// Every shown pixel has such a column and row; they start at zero, and never go back as
/// one moves right or down.
pub proof fn video_moves_right_and_down(d: int, e: int, shown: int, source: int) -> (r: (int, int))
    requires
        0 <= d <= e < shown,
        0 < source,
    ensures
        r.0 * shown <= d * source < (r.0 + 1) * shown,
        r.1 * shown <= e * source < (r.1 + 1) * shown,
        0 <= r.0 <= r.1 < source,
        d == 0 ==> r.0 == 0,
{
    let (a, b) = (d * source / shown, e * source / shown);
    lemma_source(d, shown, source);
    lemma_source(e, shown, source);
    lemma_fundamental_div_mod(d * source, shown);
    lemma_fundamental_div_mod(e * source, shown);
    assert(shown * a == a * shown && shown * b == b * shown && (a + 1) * shown == a * shown + shown
        && (b + 1) * shown == b * shown + shown) by (nonlinear_arith);
    assert(d * source <= e * source) by (nonlinear_arith)
        requires
            d <= e,
            0 < source,
    ;
    assert(a <= b) by (nonlinear_arith)
        requires
            a * shown <= d * source <= e * source < (b + 1) * shown,
            0 < shown,
    ;
    if d == 0 {
        assert(0 * source == 0);
    }
    (a, b)
}

/// Around the shown video the screen stays as it was.
pub proof fn video_leaves_the_margins(
    p: Picture,
    vid: Seq<u32>,
    dw: int,
    dh: int,
    x: int,
    y: int,
)
    requires
        p.w * p.h <= p.px.len(),
        0 <= x < p.w,
        0 <= y < p.h,
        !((p.w - dw) / 2 <= x < (p.w - dw) / 2 + dw) || !((p.h - dh) / 2 <= y < (p.h - dh) / 2
            + dh),
    ensures
        with_video(p, vid, dw, dh).px[y * p.w + x] == p.px[y * p.w + x],
        with_video(p, vid, dw, dh).px.len() == p.px.len(),
{
    raster::drawn_pixel(
        p,
        video_paint(vid, margin(p.w as int, dw), margin(p.h as int, dh), dw, dh),
        x,
        y,
    );
}

/// A decoded pixel has the red, green and blue of its three bytes, and pixels that no
/// bytes are left for stay.
pub proof fn decoded_bytes_become_colors(vid: Seq<u32>, bytes: Seq<u8>, i: int)
    requires
        0 <= i < vid.len(),
    ensures
        with_rgb(vid, bytes).len() == vid.len(),
        3 * i + 3 <= bytes.len() ==> {
            let px = with_rgb(vid, bytes)[i] as int;
            &&& px / 65536 == bytes[3 * i]
            &&& px / 256 % 256 == bytes[3 * i + 1]
            &&& px % 256 == bytes[3 * i + 2]
        },
        3 * i + 3 > bytes.len() ==> with_rgb(vid, bytes)[i] == vid[i],
{
}

/// The four bytes of a surface pixel are its red, green and blue, and full opacity.
pub proof fn surface_bytes(px: u32)
    ensures
        rgba(px).len() == 4,
        rgba(px)[0] == px as int / 65536 % 256,
        rgba(px)[1] == px as int / 256 % 256,
        rgba(px)[2] == px as int % 256,
        rgba(px)[3] == 255,
{
}

/// A frame of the drone's video is 240 pixels wide and 320 high, three bytes each.
pub proof fn video_is_upright()
    ensures
        VIDEO_W == 240 && VIDEO_H == 320,
        VIDEO_BYTES == 3 * 240 * 320,
{
}

} // verus!
