//! The flight display: status, link quality, throttle, trim and sticks, drawn inside
//! a safe-area inset that clears rounded corners and the camera cutout.

use crate::cast;
use crate::hud;
use crate::hud::{Canvas, AMBER, CYAN, DARK, GREEN, MAGENTA, RED};
use crate::raster;
use crate::raster::{Paint, Picture};
use crate::text;
use crate::text::{push_signed, push_zero_padded};
use vstd::prelude::*;
use vstd::string::StringExecFns;

verus! {

/// Color of an unlit bar of the link-quality meter.
pub const UNLIT: u32 = 0x0033_3333;

/// Opacities of the status panel and of the banner's panel.
pub const PANEL_OPACITY: u32 = 170;

pub const BANNER_OPACITY: u32 = 210;

/// Cycles that the banner is shown, and hidden.
pub const BLINK_CYCLES: u64 = 18;

/// What the display shows.
#[derive(Clone, Copy, Debug)]
pub struct Readings {
    pub armed: bool,
    pub connected: bool,
    pub fps: u32,
    pub throttle: u8,
    pub yaw: u8,
    pub roll: u8,
    pub pitch: u8,
    /// Counts the cycles, for blinking.
    pub frame: u64,
    pub trim_roll: i8,
    pub trim_pitch: i8,
    pub headless: bool,
    /// Filled columns of the throttle bar.
    pub throttle_fill: usize,
}

/// Font scale: crisp at native resolution.
pub open spec fn font_scale(w: int) -> int {
    if w / 360 > 2 {
        w / 360
    } else {
        2
    }
}

/// Edges of the safe area.
pub open spec fn safe_left(w: int) -> int {
    w / 18
}

pub open spec fn safe_right(w: int) -> int {
    w - w / 18
}

pub open spec fn safe_top(h: int) -> int {
    h / 12
}

pub open spec fn safe_bottom(h: int) -> int {
    h - h / 18
}

/// Where the throttle bar starts, and how wide it is.
pub open spec fn bar_left(w: int) -> int {
    safe_left(w) + 34 * font_scale(w)
}

pub open spec fn bar_width(w: int) -> int {
    safe_right(w) - bar_left(w) - 2 * font_scale(w)
}

/// Whether the display fits on a screen, whose sizes the system gives as signed 32-bit
/// numbers: the link status left of the right edge, a stick box above its label, and a
/// stick position times the box's side still a number.
pub open spec fn display_fits(w: int, h: int) -> bool {
    let s = font_scale(w);
    &&& 0 <= w <= i32::MAX
    &&& 0 <= h <= i32::MAX
    &&& 104 * s <= safe_right(w)
    &&& w / 4 + 8 * s <= safe_bottom(h)
    &&& 255 * (w / 4) <= usize::MAX
}

/// The link status: `LINK` or `NOSIG`, and the frame rate.
pub open spec fn link_text(connected: bool, fps: u32) -> Seq<char> {
    (if connected {
        "LINK"@
    } else {
        "NOSIG"@
    }) + " "@ + text::zero_padded(fps as nat, 2)
}

/// The trim readout.
pub open spec fn trim_text(roll: i8, pitch: i8) -> Seq<char> {
    "TRM R"@ + text::signed(roll as int) + " P"@ + text::signed(pitch as int)
}

/// Lit bars of the link-quality meter, by frame rate.
pub open spec fn link_bars(fps: u32) -> int {
    if fps >= 18 {
        3
    } else if fps >= 10 {
        2
    } else if fps >= 3 {
        1
    } else {
        0
    }
}

/// Color of the lit bars.
pub open spec fn link_color(fps: u32) -> u32 {
    if link_bars(fps) >= 3 {
        GREEN
    } else if link_bars(fps) == 2 {
        AMBER
    } else {
        RED
    }
}

/// Whether the banner is up: without video, every other blink.
pub open spec fn banner_shown(r: Readings) -> bool {
    !r.connected && (r.frame / BLINK_CYCLES) % 2 == 0
}

/// The status panel with the arm state and the link status.
pub open spec fn with_status(p: Picture, r: Readings) -> Picture {
    let (w, h) = (p.w as int, p.h as int);
    let s = font_scale(w);
    let (x0, y0, x1) = (safe_left(w), safe_top(h), safe_right(w));
    let paneled = raster::drawn(
        p,
        raster::area(
            x0 + s,
            y0 + s,
            x1 - x0 - 2 * s,
            30 * s,
            raster::glaze(DARK, PANEL_OPACITY as int),
        ),
    );
    let stated = if r.armed {
        hud::with_glow_text(paneled, x0 + 2 * s, y0 + 2 * s, "[ARMED]"@, GREEN, s)
    } else {
        hud::with_glow_text(paneled, x0 + 2 * s, y0 + 2 * s, "[STANDBY]"@, AMBER, s)
    };
    hud::with_glow_text(
        stated,
        x1 - 104 * s,
        y0 + 2 * s,
        link_text(r.connected, r.fps),
        if r.connected {
            CYAN
        } else {
            AMBER
        },
        s,
    )
}

/// The first `n` bars of the link-quality meter, each two dots higher than the one
/// before.
pub open spec fn with_link_bars(p: Picture, fps: u32, n: nat) -> Picture
    decreases n,
{
    if n == 0 {
        p
    } else {
        let (w, h) = (p.w as int, p.h as int);
        let s = font_scale(w);
        let i = n - 1;
        let height = n as int * 2 * s;
        raster::drawn(
            with_link_bars(p, fps, (n - 1) as nat),
            raster::area(
                safe_right(w) - 32 * s + i * 3 * s,
                safe_top(h) + 10 * s - height,
                2 * s,
                height,
                raster::solid(
                    if i < link_bars(fps) {
                        link_color(fps)
                    } else {
                        UNLIT
                    },
                ),
            ),
        )
    }
}

/// The throttle row.
pub open spec fn with_throttle(p: Picture, r: Readings) -> Picture {
    let (w, h) = (p.w as int, p.h as int);
    let s = font_scale(w);
    let y = safe_top(h) + 10 * s;
    hud::with_bar(
        hud::with_glow_text(p, safe_left(w) + 2 * s, y, "THR"@, CYAN, s),
        bar_left(w),
        y,
        bar_width(w),
        6 * s,
        r.throttle_fill as int,
        if r.armed {
            GREEN
        } else {
            AMBER
        },
    )
}

/// The trim and headless row.
pub open spec fn with_trim(p: Picture, r: Readings) -> Picture {
    let (w, h) = (p.w as int, p.h as int);
    let s = font_scale(w);
    let y = safe_top(h) + 18 * s;
    let trimmed = hud::with_glow_text(
        p,
        safe_left(w) + 2 * s,
        y,
        trim_text(r.trim_roll, r.trim_pitch),
        CYAN,
        s,
    );
    if r.headless {
        hud::with_glow_text(trimmed, safe_right(w) - 72 * s, y, "HEADLESS"@, MAGENTA, s)
    } else {
        trimmed
    }
}

/// The stick boxes near the bottom corners, with their labels.
pub open spec fn with_sticks(p: Picture, r: Readings) -> Picture {
    let (w, h) = (p.w as int, p.h as int);
    let s = font_scale(w);
    let size = w / 4;
    let (x0, x1, y1) = (safe_left(w), safe_right(w), safe_bottom(h));
    let top = y1 - size - 8 * s;
    let label = y1 - 7 * s;
    let left = hud::with_glow_text(
        hud::with_stick_box(p, x0 + 2 * s, top, size, r.yaw, r.throttle, MAGENTA),
        x0 + 2 * s,
        label,
        "YAW/THR"@,
        MAGENTA,
        s,
    );
    hud::with_glow_text(
        hud::with_stick_box(left, x1 - size - 2 * s, top, size, r.roll, r.pitch, CYAN),
        x1 - 64 * s,
        label,
        "ROL/PIT"@,
        CYAN,
        s,
    )
}

/// `v` less `d`, held at zero.
pub open spec fn less(v: int, d: int) -> int {
    if v < d {
        0
    } else {
        v - d
    }
}

/// The link-lost banner.
pub open spec fn with_banner(p: Picture) -> Picture {
    let (w, h) = (p.w as int, p.h as int);
    let s = font_scale(w) + 1;
    let tw = 72 * s;
    let (x, y) = (less(w, tw) / 2, h * 2 / 5);
    hud::with_glow_text(
        raster::drawn(
            p,
            raster::area(
                less(x, 6),
                less(y, 6),
                tw + 12,
                8 * s + 12,
                raster::glaze(DARK, BANNER_OPACITY as int),
            ),
        ),
        x,
        y,
        "LINK LOST"@,
        RED,
        s,
    )
}

/// The whole display, drawn over a picture.
pub open spec fn with_display(p: Picture, r: Readings) -> Picture {
    let status = with_link_bars(with_status(p, r), r.fps, 3);
    let instruments = with_sticks(with_trim(with_throttle(status, r), r), r);
    if banner_shown(r) {
        with_banner(instruments)
    } else {
        instruments
    }
}

proof fn lemma_glow_fits(x: int, y: int, n: nat, scale: int)
    requires
        0 <= x,
        0 <= y,
        0 <= scale <= 6_000_000,
        n <= 20,
        x + 2 * scale <= i32::MAX,
        y + 2 * scale <= i32::MAX,
    ensures
        hud::glow_fits(x, y, n, scale),
{
    cast::small_numbers_are_kept(x);
    cast::small_numbers_are_kept(y);
    cast::small_numbers_are_kept(scale);
    assert(0 <= (8 * n) * scale <= 160 * 6_000_000) by (nonlinear_arith)
        requires
            0 <= n <= 20,
            0 <= scale <= 6_000_000,
    ;
    assert forall|o: int, q: int| -2 <= o <= 2 && -2 <= q <= 2 implies hud::text_fits(
        #[trigger] hud::shifted(x, o, scale),
        #[trigger] hud::shifted(y, q, scale),
        n,
        scale,
    ) by {
        assert(o * scale <= 2 * scale && q * scale <= 2 * scale) by (nonlinear_arith)
            requires
                o <= 2,
                q <= 2,
                0 <= scale,
        ;
    }
}

proof fn lemma_stick_fits(x: int, y: int, size: int, ax: u8, ay: u8)
    requires
        0 <= x,
        0 <= y,
        0 <= size,
        255 * size <= usize::MAX,
        x + size < i32::MAX,
        y + size < i32::MAX,
    ensures
        hud::stick_fits(x, y, size, ax, ay),
{
    hud::stick_dot_inside_box(x, y, size, ax, ay);
    assert(ax * size <= 255 * size && (255 - ay) * size <= 255 * size) by (nonlinear_arith)
        requires
            ax <= 255,
            0 <= size,
    ;
}

/// Whether the display fits on a screen of that size.
pub fn fits_screen(w: usize, h: usize) -> (b: bool)
    ensures
        b == display_fits(w as int, h as int),
{
    if w > i32::MAX as usize || h > i32::MAX as usize {
        return false;
    }
    let s = scale_for(w);
    104 * s <= w - w / 18 && w / 4 + 8 * s <= h - h / 18 && w / 4 <= usize::MAX / 255
}

fn scale_for(w: usize) -> (s: usize)
    ensures
        s == font_scale(w as int),
        w <= i32::MAX ==> s <= 5_965_232,
{
    if w / 360 > 2 {
        w / 360
    } else {
        2
    }
}

/// How wide the throttle bar is on a screen of that width.
pub fn throttle_bar_width(w: usize, h: usize) -> (n: usize)
    requires
        display_fits(w as int, h as int),
    ensures
        n == bar_width(w as int),
{
    let s = scale_for(w);
    w - w / 18 - (w / 18 + 34 * s) - 2 * s
}

fn link_line(connected: bool, fps: u32) -> (t: String)
    ensures
        t@ == link_text(connected, fps),
        t@.len() <= 16,
{
    proof {
        reveal_strlit("LINK");
        reveal_strlit("NOSIG");
        reveal_strlit(" ");
        text::digits_are_few(fps);
    }
    let mut t = (if connected {
        "LINK"
    } else {
        "NOSIG"
    }).to_owned();
    t.append(" ");
    push_zero_padded(&mut t, fps, 2);
    t
}

fn trim_line(roll: i8, pitch: i8) -> (t: String)
    ensures
        t@ == trim_text(roll, pitch),
        t@.len() <= 15,
{
    proof {
        reveal_strlit("TRM R");
        reveal_strlit(" P");
        text::signed_is_short(roll);
        text::signed_is_short(pitch);
    }
    let mut t = "TRM R".to_owned();
    push_signed(&mut t, roll);
    t.append(" P");
    push_signed(&mut t, pitch);
    t
}

fn draw_status(c: &mut Canvas, r: &Readings)
    requires
        old(c).wf(),
        display_fits(old(c).w as int, old(c).h as int),
    ensures
        final(c).wf(),
        final(c).w == old(c).w,
        final(c).h == old(c).h,
        final(c)@ == with_status(old(c)@, *r),
        final(final(c).buf)@ == final(old(c).buf)@,
{
    let (w, h) = (c.w, c.h);
    let s = scale_for(w);
    let (x0, y0, x1) = (w / 18, h / 12, w - w / 18);
    proof {
        reveal_strlit("[ARMED]");
        reveal_strlit("[STANDBY]");
        lemma_glow_fits(x0 + 2 * s, y0 + 2 * s, 7, s as int);
        lemma_glow_fits(x0 + 2 * s, y0 + 2 * s, 9, s as int);
    }
    c.panel(x0 + s, y0 + s, x1 - x0 - 2 * s, 30 * s, PANEL_OPACITY);
    if r.armed {
        c.glow_text(x0 + 2 * s, y0 + 2 * s, "[ARMED]", GREEN, s);
    } else {
        c.glow_text(x0 + 2 * s, y0 + 2 * s, "[STANDBY]", AMBER, s);
    }
    let line = link_line(r.connected, r.fps);
    proof {
        lemma_glow_fits(x1 - 104 * s, y0 + 2 * s, line@.len(), s as int);
    }
    let color = if r.connected {
        CYAN
    } else {
        AMBER
    };
    c.glow_text(x1 - 104 * s, y0 + 2 * s, line.as_str(), color, s);
}

fn draw_link_bars(c: &mut Canvas, fps: u32)
    requires
        old(c).wf(),
        display_fits(old(c).w as int, old(c).h as int),
    ensures
        final(c).wf(),
        final(c).w == old(c).w,
        final(c).h == old(c).h,
        final(c)@ == with_link_bars(old(c)@, fps, 3),
        final(final(c).buf)@ == final(old(c).buf)@,
{
    let (w, h) = (c.w, c.h);
    let s = scale_for(w);
    let left: usize = w - w / 18 - 32 * s;
    let bottom: usize = h / 12 + 10 * s;
    let bars: usize = if fps >= 18 {
        3
    } else if fps >= 10 {
        2
    } else if fps >= 3 {
        1
    } else {
        0
    };
    let lit = if bars >= 3 {
        GREEN
    } else if bars == 2 {
        AMBER
    } else {
        RED
    };
    for i in 0..3usize
        invariant
            c.wf(),
            c.w == w,
            c.h == h,
            old(c).w == w,
            old(c).h == h,
            display_fits(w as int, h as int),
            s == font_scale(w as int),
            2 <= s <= 5_965_232,
            left == safe_right(w as int) - 32 * s,
            bottom == safe_top(h as int) + 10 * s,
            bars == link_bars(fps),
            lit == link_color(fps),
            c@ == with_link_bars(old(c)@, fps, i as nat),
            final(c.buf)@ == final(old(c).buf)@,
    {
        assert(0 <= (i + 1) * 2 * s <= 6 * s) by (nonlinear_arith)
            requires
                0 <= i < 3,
                2 <= s,
        ;
        let bh: usize = (i + 1) * 2 * s;
        assert(0 <= i * 3 * s <= 6 * s) by (nonlinear_arith)
            requires
                0 <= i < 3,
                2 <= s,
        ;
        let color = if i < bars {
            lit
        } else {
            UNLIT
        };
        c.fill(left + i * 3 * s, bottom - bh, 2 * s, bh, color);
    }
}

fn draw_throttle(c: &mut Canvas, r: &Readings)
    requires
        old(c).wf(),
        display_fits(old(c).w as int, old(c).h as int),
        bar_left(old(c).w as int) + r.throttle_fill <= usize::MAX,
    ensures
        final(c).wf(),
        final(c).w == old(c).w,
        final(c).h == old(c).h,
        final(c)@ == with_throttle(old(c)@, *r),
        final(final(c).buf)@ == final(old(c).buf)@,
{
    let (w, h) = (c.w, c.h);
    let s = scale_for(w);
    let (x0, x1) = (w / 18, w - w / 18);
    let y: usize = h / 12 + 10 * s;
    proof {
        reveal_strlit("THR");
        lemma_glow_fits(x0 + 2 * s, y as int, 3, s as int);
    }
    c.glow_text(x0 + 2 * s, y, "THR", CYAN, s);
    let bar_x: usize = x0 + 34 * s;
    let color = if r.armed {
        GREEN
    } else {
        AMBER
    };
    c.bar(bar_x, y, x1 - bar_x - 2 * s, 6 * s, r.throttle_fill, color);
}

fn draw_trim(c: &mut Canvas, r: &Readings)
    requires
        old(c).wf(),
        display_fits(old(c).w as int, old(c).h as int),
    ensures
        final(c).wf(),
        final(c).w == old(c).w,
        final(c).h == old(c).h,
        final(c)@ == with_trim(old(c)@, *r),
        final(final(c).buf)@ == final(old(c).buf)@,
{
    let (w, h) = (c.w, c.h);
    let s = scale_for(w);
    let (x0, x1) = (w / 18, w - w / 18);
    let y: usize = h / 12 + 18 * s;
    let line = trim_line(r.trim_roll, r.trim_pitch);
    proof {
        reveal_strlit("HEADLESS");
        lemma_glow_fits(x0 + 2 * s, y as int, line@.len(), s as int);
        lemma_glow_fits(x1 - 72 * s, y as int, 8, s as int);
    }
    c.glow_text(x0 + 2 * s, y, line.as_str(), CYAN, s);
    if r.headless {
        c.glow_text(x1 - 72 * s, y, "HEADLESS", MAGENTA, s);
    }
}

fn draw_sticks(c: &mut Canvas, r: &Readings)
    requires
        old(c).wf(),
        display_fits(old(c).w as int, old(c).h as int),
    ensures
        final(c).wf(),
        final(c).w == old(c).w,
        final(c).h == old(c).h,
        final(c)@ == with_sticks(old(c)@, *r),
        final(final(c).buf)@ == final(old(c).buf)@,
{
    let (w, h) = (c.w, c.h);
    let s = scale_for(w);
    let size: usize = w / 4;
    let (x0, x1, y1) = (w / 18, w - w / 18, h - h / 18);
    let top: usize = y1 - size - 8 * s;
    let label: usize = y1 - 7 * s;
    proof {
        reveal_strlit("YAW/THR");
        reveal_strlit("ROL/PIT");
        lemma_stick_fits(x0 + 2 * s, top as int, size as int, r.yaw, r.throttle);
        lemma_stick_fits(x1 - size - 2 * s, top as int, size as int, r.roll, r.pitch);
        lemma_glow_fits(x0 + 2 * s, label as int, 7, s as int);
        lemma_glow_fits(x1 - 64 * s, label as int, 7, s as int);
    }
    c.stick_box(x0 + 2 * s, top, size, r.yaw, r.throttle, MAGENTA);
    c.glow_text(x0 + 2 * s, label, "YAW/THR", MAGENTA, s);
    c.stick_box(x1 - size - 2 * s, top, size, r.roll, r.pitch, CYAN);
    c.glow_text(x1 - 64 * s, label, "ROL/PIT", CYAN, s);
}

fn draw_banner(c: &mut Canvas)
    requires
        old(c).wf(),
        display_fits(old(c).w as int, old(c).h as int),
    ensures
        final(c).wf(),
        final(c).w == old(c).w,
        final(c).h == old(c).h,
        final(c)@ == with_banner(old(c)@),
        final(final(c).buf)@ == final(old(c).buf)@,
{
    let (w, h) = (c.w, c.h);
    let s = scale_for(w) + 1;
    let tw: usize = 72 * s;
    let x: usize = w.saturating_sub(tw) / 2;
    let y: usize = h * 2 / 5;
    proof {
        reveal_strlit("LINK LOST");
        lemma_glow_fits(x as int, y as int, 9, s as int);
    }
    c.panel(x.saturating_sub(6), y.saturating_sub(6), tw + 12, 8 * s + 12, BANNER_OPACITY);
    c.glow_text(x, y, "LINK LOST", RED, s);
}

/// Draws the display over `fb`, a picture of `w` by `h` pixels.
pub fn draw_hud(fb: &mut [u32], w: usize, h: usize, r: &Readings)
    requires
        w * h <= old(fb).len(),
        display_fits(w as int, h as int),
        bar_left(w as int) + r.throttle_fill <= usize::MAX,
    ensures
        final(fb)@ == with_display(
            (Picture { w: w as nat, h: h as nat, px: old(fb)@ }),
            *r,
        ).px,
{
    let mut c = Canvas { buf: fb, w, h };
    draw_status(&mut c, r);
    draw_link_bars(&mut c, r.fps);
    draw_throttle(&mut c, r);
    draw_trim(&mut c, r);
    draw_sticks(&mut c, r);
    // Loud, blinking banner when no video is arriving: fly back!
    if !r.connected && (r.frame / BLINK_CYCLES) % 2 == 0 {
        draw_banner(&mut c);
    }
}

/// The display fits on every upright screen from 220 pixels on.
pub proof fn display_fits_upright_screens(w: int, h: int)
    requires
        220 <= w <= h <= i32::MAX,
        255 * (w / 4) <= usize::MAX,
    ensures
        display_fits(w, h),
{
}

/// The meter never shows more bars for fewer frames, none below three frames per
/// second, and all of them from eighteen on.
pub proof fn link_meter_follows_frame_rate(a: u32, b: u32)
    requires
        a <= b,
    ensures
        0 <= link_bars(a) <= link_bars(b) <= 3,
        b < 3 ==> link_bars(b) == 0,
        a >= 18 ==> link_bars(a) == 3,
{
}

/// The banner blinks while the link is lost, and is never up while it is not.
pub proof fn banner_blinks(r: Readings, later: Readings)
    requires
        !r.connected,
        !later.connected,
        later.frame == r.frame + BLINK_CYCLES,
    ensures
        banner_shown(later) == !banner_shown(r),
        !banner_shown(Readings { connected: true, ..r }),
{
}

/// The cycle number decides nothing but whether the banner is lit: while connected it
/// has no influence, and otherwise only the half of the blink that it falls in has.
pub proof fn cycle_only_blinks_the_banner(p: Picture, r: Readings, frame: u64)
    requires
        r.connected || (r.frame / BLINK_CYCLES) % 2 == (frame / BLINK_CYCLES) % 2,
    ensures
        with_display(p, Readings { frame, ..r }) == with_display(p, r),
{
}

proof fn lemma_bars_frame(p: Picture, fps: u32, n: nat)
    ensures
        raster::same_frame(p, with_link_bars(p, fps, n)),
    decreases n,
{
    if n > 0 {
        lemma_bars_frame(p, fps, (n - 1) as nat);
    }
}

proof fn lemma_glow_frames()
    ensures
        forall|p: Picture, x: int, y: int, t: Seq<char>, color: u32, scale: int|
            raster::same_frame(p, #[trigger] hud::with_glow_text(p, x, y, t, color, scale)),
        forall|p: Picture, f: Paint| raster::same_frame(p, #[trigger] raster::drawn(p, f)),
        forall|p: Picture, q: Picture, r: Picture|
            #[trigger] raster::same_frame(p, q) && #[trigger] raster::same_frame(q, r)
                ==> raster::same_frame(p, r),
{
    assert forall|p: Picture, q: Picture, r: Picture|
        #[trigger] raster::same_frame(p, q) && #[trigger] raster::same_frame(
            q,
            r,
        ) implies raster::same_frame(p, r) by {
        assert forall|i: int| p.w * p.h <= i < p.px.len() implies #[trigger] p.px[i] == r.px[i] by {
            assert(p.px[i] == q.px[i]);
        }
    }
    assert forall|p: Picture, x: int, y: int, t: Seq<char>, color: u32, scale: int|
        raster::same_frame(p, #[trigger] hud::with_glow_text(p, x, y, t, color, scale)) by {
        hud::glow_text_stays_on_canvas(p, x, y, t, color, scale);
    }
}

proof fn lemma_rows_frame(p: Picture, r: Readings)
    ensures
        raster::same_frame(p, with_status(p, r)),
        raster::same_frame(p, with_throttle(p, r)),
        raster::same_frame(p, with_trim(p, r)),
{
    lemma_glow_frames();
}

proof fn lemma_corners_frame(p: Picture, r: Readings)
    ensures
        raster::same_frame(p, with_sticks(p, r)),
        raster::same_frame(p, with_banner(p)),
{
    lemma_glow_frames();
}

/// Drawing the display keeps the size of the picture, and everything past its rows.
pub proof fn display_stays_on_canvas(p: Picture, r: Readings)
    ensures
        raster::same_frame(p, with_display(p, r)),
{
    let a = with_status(p, r);
    let b = with_link_bars(a, r.fps, 3);
    let c = with_throttle(b, r);
    let d = with_trim(c, r);
    let e = with_sticks(d, r);
    lemma_rows_frame(p, r);
    lemma_bars_frame(a, r.fps, 3);
    lemma_rows_frame(b, r);
    lemma_rows_frame(c, r);
    lemma_corners_frame(d, r);
    lemma_corners_frame(e, r);
}

/// How a screen of any size is divided: the margins are an eighteenth of the width, a
/// twelfth of the height on top and an eighteenth of it at the bottom, a dot is a 360th of
/// the width but at least two pixels, all rounded down, and a stick box takes a quarter of
/// the width.
pub open spec fn is_layout(
    p: Picture,
    s: int,
    left: int,
    top: int,
    bottom: int,
    side: int,
) -> bool {
    &&& s == 2 && p.w < 1080 || s > 2 && 360 * s <= p.w < 360 * (s + 1)
    &&& 18 * left <= p.w < 18 * (left + 1)
    &&& 12 * top <= p.h < 12 * (top + 1)
    &&& 18 * bottom <= p.h < 18 * (bottom + 1)
    &&& 4 * side <= p.w < 4 * (side + 1)
}

proof fn lemma_layout(p: Picture, s: int, left: int, top: int, bottom: int, side: int)
    requires
        is_layout(p, s, left, top, bottom, side),
    ensures
        s == font_scale(p.w as int),
        left == safe_left(p.w as int),
        p.w - left == safe_right(p.w as int),
        top == safe_top(p.h as int),
        p.h - bottom == safe_bottom(p.h as int),
        side == p.w as int / 4,
{
}

/// The status panel spans the safe area at its top, with the arm state on its left, green
/// while armed and amber while not, and the link status 104 dots from its right end, cyan
/// with a link and amber without.
pub proof fn status_layout(
    p: Picture,
    r: Readings,
    s: int,
    left: int,
    top: int,
    bottom: int,
    side: int,
)
    requires
        is_layout(p, s, left, top, bottom, side),
    ensures
        ({
            let right = p.w - left;
            let panel = raster::drawn(
                p,
                raster::area(
                    left + s,
                    top + s,
                    right - left - 2 * s,
                    30 * s,
                    raster::glaze(0x0005_0A12, 170),
                ),
            );
            let armed = hud::with_glow_text(
                panel,
                left + 2 * s,
                top + 2 * s,
                "[ARMED]"@,
                0x0039_FF14,
                s,
            );
            let standby = hud::with_glow_text(
                panel,
                left + 2 * s,
                top + 2 * s,
                "[STANDBY]"@,
                0x00FF_B000,
                s,
            );
            let color = if r.connected {
                0x0000_F0FFu32
            } else {
                0x00FF_B000u32
            };
            let link = link_text(r.connected, r.fps);
            &&& r.armed ==> with_status(p, r) == hud::with_glow_text(
                armed,
                right - 104 * s,
                top + 2 * s,
                link,
                color,
                s,
            )
            &&& !r.armed ==> with_status(p, r) == hud::with_glow_text(
                standby,
                right - 104 * s,
                top + 2 * s,
                link,
                color,
                s,
            )
        }),
{
    lemma_layout(p, s, left, top, bottom, side);
}

/// The link meter has three bars, each two dots wide, a dot apart, and two dots higher than
/// the one before, on one line 10 dots below the top. From 3, 10 and 18 frames per second
/// on, one, two and three of them are lit, in red, amber and green; the others are gray.
pub proof fn meter_layout(
    p: Picture,
    r: Readings,
    s: int,
    left: int,
    top: int,
    bottom: int,
    side: int,
)
    requires
        is_layout(p, s, left, top, bottom, side),
    ensures
        ({
            let x = p.w - left - 32 * s;
            let y = top + 10 * s;
            let lit = if r.fps >= 18 {
                0x0039_FF14u32
            } else if r.fps >= 10 {
                0x00FF_B000u32
            } else {
                0x00FF_1133u32
            };
            let low = if r.fps >= 3 {
                lit
            } else {
                0x0033_3333u32
            };
            let middle = if r.fps >= 10 {
                lit
            } else {
                0x0033_3333u32
            };
            let high = if r.fps >= 18 {
                lit
            } else {
                0x0033_3333u32
            };
            with_link_bars(p, r.fps, 3) == raster::drawn(
                raster::drawn(
                    raster::drawn(
                        p,
                        raster::area(x, y - 2 * s, 2 * s, 2 * s, raster::solid(low)),
                    ),
                    raster::area(x + 3 * s, y - 4 * s, 2 * s, 4 * s, raster::solid(middle)),
                ),
                raster::area(x + 6 * s, y - 6 * s, 2 * s, 6 * s, raster::solid(high)),
            )
        }),
{
    lemma_layout(p, s, left, top, bottom, side);
    let b1 = with_link_bars(p, r.fps, 1);
    let b2 = with_link_bars(p, r.fps, 2);
    assert(with_link_bars(p, r.fps, 0) == p);
    assert(0 * 3 * s == 0 && 1 * 3 * s == 3 * s && 2 * 3 * s == 6 * s);
    assert(1 * 2 * s == 2 * s && 2 * 2 * s == 4 * s && 3 * 2 * s == 6 * s);
    assert(b1.w == p.w && b1.h == p.h && b2.w == p.w && b2.h == p.h);
}

/// The throttle row: its label in cyan, and the bar behind it, green while armed and amber
/// while not, filled as far as the reading says.
pub proof fn throttle_layout(
    p: Picture,
    r: Readings,
    s: int,
    left: int,
    top: int,
    bottom: int,
    side: int,
)
    requires
        is_layout(p, s, left, top, bottom, side),
    ensures
        with_throttle(p, r) == hud::with_bar(
            hud::with_glow_text(p, left + 2 * s, top + 10 * s, "THR"@, 0x0000_F0FF, s),
            left + 34 * s,
            top + 10 * s,
            p.w - 2 * left - 36 * s,
            6 * s,
            r.throttle_fill as int,
            if r.armed {
                0x0039_FF14
            } else {
                0x00FF_B000
            },
        ),
{
    lemma_layout(p, s, left, top, bottom, side);
}

/// The trim row: the trims in cyan, and in headless mode, and only then, its name in
/// magenta 72 dots from the right.
pub proof fn trim_layout(
    p: Picture,
    r: Readings,
    s: int,
    left: int,
    top: int,
    bottom: int,
    side: int,
)
    requires
        is_layout(p, s, left, top, bottom, side),
    ensures
        ({
            let trims = hud::with_glow_text(
                p,
                left + 2 * s,
                top + 18 * s,
                trim_text(r.trim_roll, r.trim_pitch),
                0x0000_F0FF,
                s,
            );
            &&& !r.headless ==> with_trim(p, r) == trims
            &&& r.headless ==> with_trim(p, r) == hud::with_glow_text(
                trims,
                p.w - left - 72 * s,
                top + 18 * s,
                "HEADLESS"@,
                0x00FF_2BD6,
                s,
            )
        }),
{
    lemma_layout(p, s, left, top, bottom, side);
}

/// The stick boxes stand at the bottom: on the left yaw across and throttle up, in magenta,
/// on the right roll across and pitch up, in cyan, each over its label.
pub proof fn stick_layout(
    p: Picture,
    r: Readings,
    s: int,
    left: int,
    top: int,
    bottom: int,
    side: int,
)
    requires
        is_layout(p, s, left, top, bottom, side),
    ensures
        ({
            let (right, floor) = (p.w - left, p.h - bottom);
            let high = floor - side - 8 * s;
            let yaw = hud::with_glow_text(
                hud::with_stick_box(
                    p,
                    left + 2 * s,
                    high,
                    side,
                    r.yaw,
                    r.throttle,
                    0x00FF_2BD6,
                ),
                left + 2 * s,
                floor - 7 * s,
                "YAW/THR"@,
                0x00FF_2BD6,
                s,
            );
            with_sticks(p, r) == hud::with_glow_text(
                hud::with_stick_box(
                    yaw,
                    right - side - 2 * s,
                    high,
                    side,
                    r.roll,
                    r.pitch,
                    0x0000_F0FF,
                ),
                right - 64 * s,
                floor - 7 * s,
                "ROL/PIT"@,
                0x0000_F0FF,
                s,
            )
        }),
{
    lemma_layout(p, s, left, top, bottom, side);
}

/// The banner is centered, two fifths down the screen, in red letters one dot larger than
/// the rest, on a dark panel with six pixels around them.
pub proof fn banner_layout(
    p: Picture,
    r: Readings,
    s: int,
    left: int,
    top: int,
    bottom: int,
    side: int,
)
    requires
        is_layout(p, s, left, top, bottom, side),
    ensures
        ({
            let big = s + 1;
            let x = if p.w < 72 * big {
                0
            } else {
                (p.w - 72 * big) / 2
            };
            let y = p.h as int * 2 / 5;
            with_banner(p) == hud::with_glow_text(
                raster::drawn(
                    p,
                    raster::area(
                        if x < 6 {
                            0
                        } else {
                            x - 6
                        },
                        if y < 6 {
                            0
                        } else {
                            y - 6
                        },
                        72 * big + 12,
                        8 * big + 12,
                        raster::glaze(0x0005_0A12, 210),
                    ),
                ),
                x,
                y,
                "LINK LOST"@,
                0x00FF_1133,
                big,
            )
        }),
{
    lemma_layout(p, s, left, top, bottom, side);
}

/// The display is drawn from the top down, and the banner over all of it: while no video
/// arrives, for eighteen cycles on and eighteen off.
pub proof fn display_order(p: Picture, r: Readings)
    ensures
        ({
            let meter = with_link_bars(with_status(p, r), r.fps, 3);
            let all = with_sticks(with_trim(with_throttle(meter, r), r), r);
            &&& r.connected ==> with_display(p, r) == all
            &&& !r.connected && r.frame % 36 < 18 ==> with_display(p, r) == with_banner(all)
            &&& !r.connected && r.frame % 36 >= 18 ==> with_display(p, r) == all
        }),
{
    let (q, m) = (r.frame as int / 36, r.frame as int % 36);
    assert(r.frame == 36 * q + m);
    if m < 18 {
        assert(r.frame as int / 18 == 2 * q);
    } else {
        assert(r.frame as int / 18 == 2 * q + 1);
    }
}

/// What the link status says: whether there is a link, a blank, and the frame rate in at
/// least two digits.
pub proof fn link_status_reads(connected: bool, fps: u32)
    ensures
        ({
            let t = link_text(connected, fps);
            &&& connected ==> t.take(5) == seq!['L', 'I', 'N', 'K', ' ']
            &&& connected ==> t.len() >= 7 && text::value(t.skip(5)) == fps
            &&& !connected ==> t.take(6) == seq!['N', 'O', 'S', 'I', 'G', ' ']
            &&& !connected ==> t.len() >= 8 && text::value(t.skip(6)) == fps
        }),
{
    reveal_strlit("LINK");
    reveal_strlit("NOSIG");
    reveal_strlit(" ");
    text::padded_numbers_read_back(fps as nat, 2, 0);
    let n = text::zero_padded(fps as nat, 2);
    let t = link_text(connected, fps);
    if connected {
        assert(t.take(5) =~= seq!['L', 'I', 'N', 'K', ' ']);
        assert(t.skip(5) =~= n);
    } else {
        assert(t.take(6) =~= seq!['N', 'O', 'S', 'I', 'G', ' ']);
        assert(t.skip(6) =~= n);
    }
}

/// What the trim readout says: roll behind an R and pitch behind a P, each with its sign
/// and in at least two digits.
pub proof fn trim_readout_reads(roll: i8, pitch: i8)
    ensures
        ({
            let t = trim_text(roll, pitch);
            let n = 5 + text::signed(roll as int).len() as int;
            &&& t.take(5) == seq!['T', 'R', 'M', ' ', 'R']
            &&& t.subrange(5, n) == text::signed(roll as int)
            &&& t.subrange(n, n + 2) == seq![' ', 'P']
            &&& t.skip(n + 2) == text::signed(pitch as int)
        }),
{
    reveal_strlit("TRM R");
    reveal_strlit(" P");
    let t = trim_text(roll, pitch);
    let n = 5 + text::signed(roll as int).len() as int;
    assert(t.take(5) =~= seq!['T', 'R', 'M', ' ', 'R']);
    assert(t.subrange(5, n) =~= text::signed(roll as int));
    assert(t.subrange(n, n + 2) =~= seq![' ', 'P']);
    assert(t.skip(n + 2) =~= text::signed(pitch as int));
}

/// How wide the throttle bar is: what the margins, its label and a dot on the right leave.
pub proof fn throttle_bar_spans_the_row(w: int, s: int, left: int)
    requires
        0 <= w,
        s == 2 && w < 1080 || s > 2 && 360 * s <= w < 360 * (s + 1),
        18 * left <= w < 18 * (left + 1),
    ensures
        bar_left(w) == left + 34 * s,
        bar_left(w) + bar_width(w) + 2 * s == w - left,
{
}

} // verus!
