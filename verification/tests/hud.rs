use font8x8::{UnicodeFonts, BASIC_FONTS};
use glitchwing::color::{blend, ch, rgb};
use glitchwing::hud::{Canvas, AMBER, CYAN, DARK, GREEN, MAGENTA, RED};
use glitchwing::overlay;

const W: usize = 64;
const H: usize = 48;

fn blank(color: u32) -> Vec<u32> {
    vec![color; W * H]
}

fn canvas(buf: &mut Vec<u32>) -> Canvas<'_> {
    Canvas { buf: &mut buf[..], w: W, h: H }
}

fn at(buf: &[u32], x: usize, y: usize) -> u32 {
    buf[y * W + x]
}

#[test]
fn palette() {
    assert_eq!(CYAN, 0x0000_F0FF);
    assert_eq!(MAGENTA, 0x00FF_2BD6);
    assert_eq!(GREEN, 0x0039_FF14);
    assert_eq!(RED, 0x00FF_1133);
    assert_eq!(AMBER, 0x00FF_B000);
    assert_eq!(DARK, 0x0005_0A12);
}

#[test]
fn channels_pack_and_unpack() {
    let c = rgb(0x12, 0x34, 0x56);
    assert_eq!(c, 0x0012_3456);
    assert_eq!((ch(c, 16), ch(c, 8), ch(c, 0)), (0x12, 0x34, 0x56));
    assert_eq!(ch(0xAB12_3456, 16), 0x12);
}

#[test]
fn blending_is_a_weighted_mean() {
    assert_eq!(blend(0x0000_0000, 0x00FF_FFFF, 128), 0x0080_8080);
    assert_eq!(blend(0x0064_6464, 0x0000_0000, 60), 0x004C_4C4C);
    assert_eq!(blend(0x0010_2030, 0x00AA_BBCC, 0), 0x0010_2030);
    assert_eq!(blend(0x0010_2030, 0x00AA_BBCC, 255), 0x00AA_BBCC);
    assert_eq!(blend(0xFF10_2030, 0x00AA_BBCC, 0), 0x0010_2030);
}

#[test]
fn fill_covers_its_rectangle_and_nothing_else() {
    let mut buf = blank(7);
    canvas(&mut buf).fill(10, 20, 3, 2, RED);
    for y in 0..H {
        for x in 0..W {
            let inside = (10..13).contains(&x) && (20..22).contains(&y);
            assert_eq!(at(&buf, x, y), if inside { RED } else { 7 });
        }
    }
}

#[test]
fn drawing_is_clipped_at_the_edges() {
    let mut buf = blank(7);
    buf.push(0xDEAD);
    let mut c = canvas(&mut buf);
    c.fill(W - 1, H - 1, 10, 10, RED);
    c.fill(W, 0, 5, 5, RED);
    c.hline(W - 2, 3, 10, GREEN);
    c.vline(3, H - 2, 10, GREEN);
    c.panel(W, H, 4, 4, 9999);
    assert_eq!(at(&buf, W - 1, H - 1), RED);
    assert_eq!(at(&buf, 0, 1), 7);
    assert_eq!(at(&buf, W - 1, 3), GREEN);
    assert_eq!(at(&buf, 0, 4), 7);
    assert_eq!(at(&buf, 3, H - 1), GREEN);
    assert_eq!(buf[W * H], 0xDEAD);
}

#[test]
fn lines_have_their_length() {
    let mut buf = blank(0);
    let mut c = canvas(&mut buf);
    c.hline(5, 6, 4, CYAN);
    c.vline(20, 8, 3, AMBER);
    c.hline(0, 0, 0, RED);
    assert_eq!(buf.iter().filter(|p| **p == CYAN).count(), 4);
    assert_eq!(buf.iter().filter(|p| **p == AMBER).count(), 3);
    assert_eq!(buf.iter().filter(|p| **p == RED).count(), 0);
    assert_eq!((at(&buf, 5, 6), at(&buf, 8, 6), at(&buf, 9, 6)), (CYAN, CYAN, 0));
    assert_eq!((at(&buf, 20, 8), at(&buf, 20, 10), at(&buf, 20, 11)), (AMBER, AMBER, 0));
}

#[test]
fn scanlines_darken_every_other_row() {
    let mut buf = blank(0x0064_6464);
    canvas(&mut buf).scanlines();
    for y in 0..H {
        let want = if y % 2 == 0 { 0x004C_4C4C } else { 0x0064_6464 };
        assert!((0..W).all(|x| at(&buf, x, y) == want));
    }
}

#[test]
fn panel_is_translucent() {
    let mut buf = blank(0x00FF_FFFF);
    canvas(&mut buf).panel(2, 2, 5, 5, 170);
    assert_eq!(at(&buf, 4, 4), blend(0x00FF_FFFF, DARK, 170));
    assert_eq!(at(&buf, 7, 4), 0x00FF_FFFF);
}

#[test]
fn bar_has_track_fill_and_tick() {
    let mut buf = blank(0x00FF_FFFF);
    canvas(&mut buf).bar(4, 10, 20, 3, 5, GREEN);
    let track = blend(0x00FF_FFFF, DARK, 200);
    assert_eq!(at(&buf, 4, 10), GREEN);
    assert_eq!(at(&buf, 8, 12), GREEN);
    assert_eq!(at(&buf, 9, 10), track);
    assert_eq!(at(&buf, 14, 11), blend(track, CYAN, 180));
    assert_eq!(at(&buf, 23, 11), track);
    assert_eq!(at(&buf, 24, 11), 0x00FF_FFFF);
    assert_eq!(at(&buf, 4, 13), 0x00FF_FFFF);
}

#[test]
fn neon_frame_has_border_and_brackets() {
    let mut buf = blank(0);
    canvas(&mut buf).neon_frame(MAGENTA);
    assert_eq!(at(&buf, 30, 0), MAGENTA);
    assert_eq!(at(&buf, 30, H - 1), MAGENTA);
    assert_eq!(at(&buf, 0, 20), MAGENTA);
    assert_eq!(at(&buf, W - 1, 20), MAGENTA);
    assert_eq!(at(&buf, 30, 1), blend(0, MAGENTA, 120));
    assert_eq!(at(&buf, W - 2, 20), blend(0, MAGENTA, 120));
    // four corners, fourteen pixels along each arm
    for (x, y) in [(2, 2), (15, 2), (2, 15), (W - 3, 2), (W - 16, 2), (W - 3, 15), (2, H - 3),
                   (15, H - 3), (2, H - 16), (W - 3, H - 3), (W - 16, H - 3), (W - 3, H - 16)] {
        assert_eq!(at(&buf, x, y), CYAN);
    }
    assert_eq!(at(&buf, 16, 2), 0);
    assert_eq!(at(&buf, 2, 16), 0);
}

#[test]
fn tiny_neon_frame_is_clipped() {
    let mut buf = vec![0u32; 9];
    Canvas { buf: &mut buf[..], w: 3, h: 3 }.neon_frame(RED);
    assert_eq!([buf[0], buf[2], buf[6], buf[8]], [CYAN; 4]);
    assert_eq!([buf[1], buf[3], buf[5], buf[7]], [RED; 4]);
}

#[test]
fn glow_text_has_core_outline_and_bloom() {
    let white = 0x00FF_FFFF;
    for bg in [0, white] {
        let mut buf = blank(bg);
        canvas(&mut buf).glow_text(10, 10, "A", CYAN, 2);
        let glyph = BASIC_FONTS.get('A').unwrap();
        let lit = |c: i32, r: i32| {
            (0..8).contains(&c) && (0..8).contains(&r) && glyph[r as usize] & (1 << c) != 0
        };
        let core = blend(CYAN, white, 70);
        for y in 0..H as i32 {
            for x in 0..W as i32 {
                let px = at(&buf, x as usize, y as usize);
                let dot = |dx: i32, dy: i32| {
                    lit((x - 10 - dx * 2).div_euclid(2), (y - 10 - dy * 2).div_euclid(2))
                };
                let outlined = (-1..2).any(|dx| (-1..2).any(|dy| dot(dx, dy)));
                let blooms = [(0, -2), (0, 2), (-2, 0), (2, 0)];
                if dot(0, 0) {
                    assert_eq!(px, core);
                } else if outlined {
                    assert_eq!(px, 0);
                } else {
                    let mut want = bg;
                    for (dx, dy) in blooms {
                        if dot(dx, dy) {
                            want = blend(want, CYAN, 45);
                        }
                    }
                    assert_eq!(px, want);
                }
            }
        }
    }
}

#[test]
fn text_advances_and_skips_unknown_characters() {
    let mut a = blank(0);
    canvas(&mut a).glow_text(8, 8, "\u{3042}A", GREEN, 1);
    let mut b = blank(0);
    canvas(&mut b).glow_text(16, 8, "A", GREEN, 1);
    assert_eq!(a, b);
    let mut c = blank(0);
    canvas(&mut c).glow_text(8, 8, "", GREEN, 1);
    assert_eq!(c, blank(0));
}

#[test]
fn text_at_the_origin_is_held_there() {
    let mut buf = blank(0);
    canvas(&mut buf).glow_text(0, 0, "H", RED, 1);
    let glyph = BASIC_FONTS.get('H').unwrap();
    let col = (0..8).find(|c| glyph[0] & (1 << c) != 0).unwrap();
    assert_eq!(at(&buf, col, 0), blend(RED, 0x00FF_FFFF, 70));
}

#[test]
fn glyph_draws_a_given_bitmap() {
    let mut buf = blank(0x0010_1010);
    canvas(&mut buf).glyph(4, 4, [0x01, 0, 0, 0, 0, 0, 0, 0x80], 0x00FF_FFFF, 3, 255);
    assert_eq!(buf.iter().filter(|p| **p == 0x00FF_FFFF).count(), 18);
    assert_eq!(at(&buf, 4, 4), 0x00FF_FFFF);
    assert_eq!(at(&buf, 6, 6), 0x00FF_FFFF);
    assert_eq!(at(&buf, 7, 4), 0x0010_1010);
    assert_eq!(at(&buf, 4 + 21, 4 + 21), 0x00FF_FFFF);
    assert_eq!(at(&buf, 4 + 23, 4 + 23), 0x00FF_FFFF);
}

#[test]
fn stick_box_points_where_the_stick_is() {
    for (ax, ay, x, y) in [(128u8, 128u8, 20, 19), (0, 0, 10, 30), (255, 255, 30, 10)] {
        let mut buf = blank(0);
        canvas(&mut buf).stick_box(10, 10, 20, ax, ay, GREEN);
        for dy in 0..3 {
            for dx in 0..3 {
                assert_eq!(at(&buf, x + dx - 1, y + dy - 1), GREEN);
            }
        }
        assert_eq!(buf.iter().filter(|p| **p == GREEN).count(), 9);
        let side = blend(GREEN, 0, 80);
        assert_eq!(at(&buf, 14, 10), side);
        assert_eq!(at(&buf, 14, 30), side);
        assert_eq!(at(&buf, 10, 14), side);
        assert_eq!(at(&buf, 30, 14), side);
        assert_eq!(at(&buf, 14, 20), blend(GREEN, 0, 160));
    }
}

#[test]
fn overlay_text_has_a_shadow() {
    let mut buf = blank(0x0011_2233);
    overlay::Canvas { buf: &mut buf[..], w: W, h: H }.text(5, 6, "T", AMBER, 2);
    let glyph = BASIC_FONTS.get('T').unwrap();
    let lit = |c: i32, r: i32| {
        (0..8).contains(&c) && (0..8).contains(&r) && glyph[r as usize] & (1 << c) != 0
    };
    for y in 0..H as i32 {
        for x in 0..W as i32 {
            let want = if lit((x - 5).div_euclid(2), (y - 6).div_euclid(2)) {
                AMBER
            } else if lit((x - 6).div_euclid(2), (y - 7).div_euclid(2)) {
                0
            } else {
                0x0011_2233
            };
            assert_eq!(at(&buf, x as usize, y as usize), want);
        }
    }
}

fn overlay_text(x: usize, text: &str) -> Vec<u32> {
    let mut buf = blank(0x0011_2233);
    overlay::Canvas { buf: &mut buf[..], w: W, h: H }.text(x, 6, text, AMBER, 2);
    buf
}

#[test]
fn overlay_text_is_drawn_part_by_part() {
    let whole = overlay_text(3, "R2x");
    let mut parts = overlay_text(3, "R");
    overlay::Canvas { buf: &mut parts[..], w: W, h: H }.text(3 + 16, 6, "2x", AMBER, 2);
    assert_eq!(whole, parts);
}

#[test]
fn a_character_without_a_bitmap_leaves_a_gap() {
    assert_eq!(overlay_text(3, "\u{20ac}A"), overlay_text(3 + 16, "A"));
    assert_eq!(overlay_text(3, "\u{20ac}"), blank(0x0011_2233));
    assert_ne!(overlay_text(3, "A"), overlay_text(3 + 16, "A"));
}

#[test]
fn overlay_text_stays_in_its_box() {
    let buf = overlay_text(3, "\u{7f}@#");
    for y in 0..H {
        for x in 0..W {
            if !(3..3 + 48 + 1).contains(&x) || !(6..6 + 16 + 1).contains(&y) {
                assert_eq!(at(&buf, x, y), 0x0011_2233);
            }
        }
    }
}

#[test]
fn overlay_glyph_draws_a_given_bitmap() {
    let mut buf = blank(0);
    overlay::Canvas { buf: &mut buf[..], w: W, h: H }
        .glyph(60, 44, [0xFF, 0x01, 0, 0, 0, 0, 0, 0], RED, 1);
    assert_eq!(buf.iter().filter(|p| **p == RED).count(), 5);
    assert_eq!(at(&buf, 63, 44), RED);
    assert_eq!(at(&buf, 60, 45), RED);
}
