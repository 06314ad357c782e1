//! `0x00RRGGBB` colors and alpha blending.

use vstd::prelude::*;

verus! {

/// The palette.
pub const CYAN: u32 = 0x0000_F0FF;

pub const MAGENTA: u32 = 0x00FF_2BD6;

pub const GREEN: u32 = 0x0039_FF14;

pub const RED: u32 = 0x00FF_1133;

pub const AMBER: u32 = 0x00FF_B000;

pub const DARK: u32 = 0x0005_0A12;

pub const BLACK: u32 = 0;

pub const WHITE: u32 = 0x00FF_FFFF;

/// The channels of a color, 0 to 255.
pub open spec fn red(color: u32) -> int {
    color as int / 0x1_0000 % 0x100
}

pub open spec fn green(color: u32) -> int {
    color as int / 0x100 % 0x100
}

pub open spec fn blue(color: u32) -> int {
    color as int % 0x100
}

/// The color with these channels.
pub open spec fn packed(r: int, g: int, b: int) -> u32 {
    (r * 0x1_0000 + g * 0x100 + b) as u32
}

/// A weighted mean of two channels, rounded down: `a` parts of 255 of `fg`.
pub open spec fn mixed(bg: int, fg: int, a: int) -> int {
    (fg * a + bg * (255 - a)) / 255
}

/// `fg` over `bg` with opacity `a` of 255, channel by channel.
pub open spec fn blended(bg: u32, fg: u32, a: int) -> u32 {
    packed(
        mixed(red(bg), red(fg), a),
        mixed(green(bg), green(fg), a),
        mixed(blue(bg), blue(fg), a),
    )
}

/// The channel of a color that starts at bit `sh`.
pub fn ch(v: u32, sh: u32) -> (c: u32)
    requires
        sh == 0 || sh == 8 || sh == 16,
    ensures
        c == if sh == 16 {
            red(v)
        } else if sh == 8 {
            green(v)
        } else {
            blue(v)
        },
{
    assert((v >> 16u32) & 0xFF == (v / 0x1_0000) % 0x100) by (bit_vector);
    assert((v >> 8u32) & 0xFF == (v / 0x100) % 0x100) by (bit_vector);
    assert((v >> 0u32) & 0xFF == v % 0x100) by (bit_vector);
    (v >> sh) & 0xFF
}

/// The color with these channels.
pub fn rgb(r: u32, g: u32, b: u32) -> (color: u32)
    requires
        r < 0x100,
        g < 0x100,
        b < 0x100,
    ensures
        color == packed(r as int, g as int, b as int),
        color == r * 0x1_0000 + g * 0x100 + b,
{
    assert((r << 16u32) | (g << 8u32) | b == r * 0x1_0000 + g * 0x100 + b) by (bit_vector)
        requires
            r < 0x100,
            g < 0x100,
            b < 0x100,
    ;
    (r << 16) | (g << 8) | b
}

proof fn lemma_mixed(bg: int, fg: int, a: int)
    requires
        0 <= bg <= 255,
        0 <= fg <= 255,
        0 <= a <= 255,
    ensures
        0 <= fg * a <= 255 * 255,
        0 <= bg * (255 - a) <= 255 * 255,
        0 <= mixed(bg, fg, a) <= 255,
{
    assert(0 <= fg * a <= 255 * a) by (nonlinear_arith)
        requires
            0 <= fg <= 255,
            0 <= a,
    ;
    assert(0 <= bg * (255 - a) <= 255 * (255 - a)) by (nonlinear_arith)
        requires
            0 <= bg <= 255,
            0 <= 255 - a,
    ;
}

fn mix(bg: u32, fg: u32, a: u32) -> (m: u32)
    requires
        bg <= 255,
        fg <= 255,
        a <= 255,
    ensures
        m == mixed(bg as int, fg as int, a as int),
        m <= 255,
{
    proof {
        lemma_mixed(bg as int, fg as int, a as int);
    }
    (fg * a + bg * (255 - a)) / 255
}

/// Alpha-blends `fg` over `bg` (`a` = 0..=255).
pub fn blend(bg: u32, fg: u32, a: u32) -> (color: u32)
    requires
        a <= 255,
    ensures
        color == blended(bg, fg, a as int),
{
    let r = mix(ch(bg, 16), ch(fg, 16), a);
    let g = mix(ch(bg, 8), ch(fg, 8), a);
    let b = mix(ch(bg, 0), ch(fg, 0), a);
    rgb(r, g, b)
}

/// The channels of a packed color.
pub proof fn packed_channels(r: int, g: int, b: int)
    requires
        0 <= r < 0x100,
        0 <= g < 0x100,
        0 <= b < 0x100,
    ensures
        red(packed(r, g, b)) == r,
        green(packed(r, g, b)) == g,
        blue(packed(r, g, b)) == b,
        packed(r, g, b) < 0x100_0000,
{
}

/// A fully transparent color leaves the background, and a fully opaque one
/// replaces it (the unused top byte reads as zero).
pub proof fn blend_extremes(bg: u32, fg: u32)
    ensures
        blended(bg, fg, 0) == bg % 0x100_0000,
        blended(bg, fg, 255) == fg % 0x100_0000,
{
    assert(mixed(red(bg), red(fg), 0) == red(bg));
    assert(mixed(green(bg), green(fg), 0) == green(bg));
    assert(mixed(blue(bg), blue(fg), 0) == blue(bg));
    assert(mixed(red(bg), red(fg), 255) == red(fg));
    assert(mixed(green(bg), green(fg), 255) == green(fg));
    assert(mixed(blue(bg), blue(fg), 255) == blue(fg));
}

/// A blend never leaves the span between the two colors, in any channel.
pub proof fn blend_stays_between(bg: u32, fg: u32, a: int)
    requires
        0 <= a <= 255,
    ensures
        blended(bg, fg, a) < 0x100_0000,
        red(bg) <= red(fg) ==> red(bg) <= red(blended(bg, fg, a)) <= red(fg),
        red(fg) <= red(bg) ==> red(fg) <= red(blended(bg, fg, a)) <= red(bg),
        green(bg) <= green(fg) ==> green(bg) <= green(blended(bg, fg, a)) <= green(fg),
        green(fg) <= green(bg) ==> green(fg) <= green(blended(bg, fg, a)) <= green(bg),
        blue(bg) <= blue(fg) ==> blue(bg) <= blue(blended(bg, fg, a)) <= blue(fg),
        blue(fg) <= blue(bg) ==> blue(fg) <= blue(blended(bg, fg, a)) <= blue(bg),
{
    lemma_between(red(bg), red(fg), a);
    lemma_between(green(bg), green(fg), a);
    lemma_between(blue(bg), blue(fg), a);
    lemma_mixed(red(bg), red(fg), a);
    lemma_mixed(green(bg), green(fg), a);
    lemma_mixed(blue(bg), blue(fg), a);
    packed_channels(
        mixed(red(bg), red(fg), a),
        mixed(green(bg), green(fg), a),
        mixed(blue(bg), blue(fg), a),
    );
}

proof fn lemma_between(bg: int, fg: int, a: int)
    requires
        0 <= a <= 255,
    ensures
        bg <= fg ==> bg <= mixed(bg, fg, a) <= fg,
        fg <= bg ==> fg <= mixed(bg, fg, a) <= bg,
{
    let sum = fg * a + bg * (255 - a);
    if bg <= fg {
        assert(255 * bg <= fg * a + bg * (255 - a) <= 255 * fg) by (nonlinear_arith)
            requires
                bg <= fg,
                0 <= a <= 255,
        ;
    }
    if fg <= bg {
        assert(255 * fg <= fg * a + bg * (255 - a) <= 255 * bg) by (nonlinear_arith)
            requires
                fg <= bg,
                0 <= a <= 255,
        ;
    }
}

/// The channels of a color, from the top: red, green, blue, eight bits each.
pub proof fn channels_are_bytes(color: u32)
    ensures
        0 <= red(color) <= 255,
        0 <= green(color) <= 255,
        0 <= blue(color) <= 255,
        color as int % 0x100_0000 == red(color) * 65536 + green(color) * 256 + blue(color),
{
}

/// A blend is the weighted mean of the two colors in every channel, rounded down: `a`
/// parts of 255 of the foreground, and the rest of the background.
pub proof fn blend_is_weighted_mean(bg: u32, fg: u32, a: int)
    requires
        0 <= a <= 255,
    ensures
        ({
            let c = blended(bg, fg, a);
            let r = red(fg) * a + red(bg) * (255 - a);
            let g = green(fg) * a + green(bg) * (255 - a);
            let b = blue(fg) * a + blue(bg) * (255 - a);
            &&& 255 * red(c) <= r < 255 * (red(c) + 1)
            &&& 255 * green(c) <= g < 255 * (green(c) + 1)
            &&& 255 * blue(c) <= b < 255 * (blue(c) + 1)
            &&& c as int == red(c) * 65536 + green(c) * 256 + blue(c)
        }),
{
    lemma_mixed(red(bg), red(fg), a);
    lemma_mixed(green(bg), green(fg), a);
    lemma_mixed(blue(bg), blue(fg), a);
    packed_channels(
        mixed(red(bg), red(fg), a),
        mixed(green(bg), green(fg), a),
        mixed(blue(bg), blue(fg), a),
    );
}

} // verus!
