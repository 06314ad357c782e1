use glitchwing::display::{draw_hud, fits_screen, throttle_bar_width, Readings};
use glitchwing::hud::{Canvas, AMBER, CYAN, GREEN, MAGENTA, RED};

fn readings() -> Readings {
    Readings {
        armed: false,
        connected: true,
        fps: 21,
        throttle: 128,
        yaw: 100,
        roll: 20,
        pitch: 250,
        frame: 0,
        trim_roll: -3,
        trim_pitch: 12,
        headless: false,
        throttle_fill: 30,
    }
}

/// The display, piece by piece.
fn by_hand(fb: &mut [u32], w: usize, h: usize, r: &Readings) {
    let mut c = Canvas { buf: fb, w, h };
    let s = (w / 360).max(2);
    let g = 8 * s;
    let (x0, y0, x1, y1) = (w / 18, h / 12, w - w / 18, h - h / 18);
    c.panel(x0 + s, y0 + s, x1 - x0 - 2 * s, g * 3 + 6 * s, 170);
    let tx = x0 + 2 * s;
    let row0 = y0 + 2 * s;
    let (txt, col) = if r.armed { ("[ARMED]", GREEN) } else { ("[STANDBY]", AMBER) };
    c.glow_text(tx, row0, txt, col, s);
    let lk = if r.connected { "LINK" } else { "NOSIG" };
    let fps = r.fps;
    let color = if r.connected { CYAN } else { AMBER };
    c.glow_text(x1 - 13 * g, row0, &format!("{lk} {fps:02}"), color, s);
    let bars = if fps >= 18 { 3 } else if fps >= 10 { 2 } else if fps >= 3 { 1 } else { 0 };
    let qc = if bars >= 3 { GREEN } else if bars == 2 { AMBER } else { RED };
    for i in 0..3 {
        let bh = (i + 1) * 2 * s;
        let color = if i < bars { qc } else { 0x0033_3333 };
        c.fill(x1 - 4 * g + i * 3 * s, row0 + g - bh, 2 * s, bh, color);
    }
    c.glow_text(tx, y0 + 2 * s + g, "THR", CYAN, s);
    let bar_x = tx + 4 * g;
    let color = if r.armed { GREEN } else { AMBER };
    c.bar(bar_x, y0 + 2 * s + g, x1 - bar_x - 2 * s, g - 2 * s, r.throttle_fill, color);
    let row2 = y0 + 2 * s + 2 * g;
    let (tr, tp) = (r.trim_roll, r.trim_pitch);
    c.glow_text(tx, row2, &format!("TRM R{tr:+03} P{tp:+03}"), CYAN, s);
    if r.headless {
        c.glow_text(x1 - 9 * g, row2, "HEADLESS", MAGENTA, s);
    }
    let bs = w / 4;
    c.stick_box(x0 + 2 * s, y1 - bs - g, bs, r.yaw, r.throttle, MAGENTA);
    c.glow_text(x0 + 2 * s, y1 - g + s, "YAW/THR", MAGENTA, s);
    c.stick_box(x1 - bs - 2 * s, y1 - bs - g, bs, r.roll, r.pitch, CYAN);
    c.glow_text(x1 - 8 * g, y1 - g + s, "ROL/PIT", CYAN, s);
    if !r.connected && (r.frame / 18) % 2 == 0 {
        let bscale = s + 1;
        let tw = 9 * 8 * bscale;
        let bx = w.saturating_sub(tw) / 2;
        let by = h * 2 / 5;
        c.panel(bx.saturating_sub(6), by.saturating_sub(6), tw + 12, 8 * bscale + 12, 210);
        c.glow_text(bx, by, "LINK LOST", RED, bscale);
    }
}

fn same(w: usize, h: usize, r: &Readings) {
    assert!(fits_screen(w, h));
    let mut a: Vec<u32> = (0..w * h + 3).map(|i| (i as u32).wrapping_mul(2654435761) >> 8).collect();
    let mut b = a.clone();
    draw_hud(&mut a, w, h, r);
    by_hand(&mut b, w, h, r);
    assert!(a == b);
}

#[test]
fn display_is_drawn_piece_by_piece() {
    same(240, 320, &readings());
    same(1080, 2400, &readings());
    same(240, 320, &Readings { armed: true, headless: true, ..readings() });
    same(240, 320, &Readings { trim_roll: -128, trim_pitch: 127, fps: 4294967295, ..readings() });
}

#[test]
fn meter_goes_with_the_frame_rate() {
    for fps in [0, 2, 3, 9, 10, 17, 18, 60] {
        same(240, 320, &Readings { fps, ..readings() });
    }
}

#[test]
fn banner_blinks_without_video() {
    let lost = Readings { connected: false, fps: 0, ..readings() };
    for frame in [0, 17, 18, 35, 36] {
        same(240, 320, &Readings { frame, ..lost });
    }
    let shown = |r: &Readings| {
        let mut fb = vec![0; 240 * 320];
        draw_hud(&mut fb, 240, 320, r);
        fb
    };
    assert!(shown(&lost) != shown(&Readings { frame: 18, ..lost }));
    assert!(shown(&lost) == shown(&Readings { frame: 36, ..lost }));
    assert!(shown(&readings()) == shown(&Readings { frame: 18, ..readings() }));
}

#[test]
fn nothing_is_drawn_past_the_screen() {
    let mut fb = vec![7; 240 * 320 + 50];
    draw_hud(&mut fb, 240, 320, &readings());
    assert!(fb[240 * 320..].iter().all(|p| *p == 7));
}

#[test]
fn display_needs_room() {
    assert!(fits_screen(220, 220));
    assert!(!fits_screen(219, 400));
    assert!(!fits_screen(240, 50));
    assert!(fits_screen(2400, 1080));
    assert!(!fits_screen(0, 0));
    assert!(!fits_screen(1 << 31, 1 << 31));
}

#[test]
fn throttle_bar_takes_the_rest_of_its_row() {
    // 240 wide: inset 13, scale 2, so from 13 + 68 to 227 - 4
    assert_eq!(throttle_bar_width(240, 320), 223 - 81);
}

#[test]
fn the_cycle_only_blinks_the_banner() {
    let draw = |connected: bool, frame: u64| {
        let mut fb = vec![0u32; 480 * 640];
        assert!(fits_screen(480, 640));
        draw_hud(&mut fb, 480, 640, &Readings { connected, frame, ..readings() });
        fb
    };
    assert_eq!(draw(true, 0), draw(true, 18));
    assert_eq!(draw(true, 0), draw(true, u64::MAX));
    assert_eq!(draw(false, 0), draw(false, 17));
    assert_eq!(draw(false, 5), draw(false, 36));
    assert_ne!(draw(false, 17), draw(false, 18));
}
