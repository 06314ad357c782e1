use glitchwing::cockpit::transmit;
use glitchwing::net::{ControlHandle, STALE_AFTER};
use glitchwing::protocol::{idle_keepalive, ControlState};
use glitchwing::viewer::{draw_border, offset, status_line, Gamepad, Keys, Title, Viewer};

fn keys() -> Keys {
    Keys {
        enter_pressed: false,
        h_pressed: false,
        w: false,
        s: false,
        a: false,
        d: false,
        up: false,
        down: false,
        left: false,
        right: false,
        t: false,
        g: false,
        c: false,
        f: false,
        space: false,
    }
}

#[test]
fn offsets_saturate() {
    assert_eq!(offset(0), 128);
    assert_eq!(offset(64), 192);
    assert_eq!(offset(-64), 64);
    assert_eq!(offset(127), 255);
    assert_eq!(offset(1000), 255);
    assert_eq!(offset(i32::MAX), 255);
    assert_eq!(offset(-129), 0);
    assert_eq!(offset(128), 255);
    assert_eq!(offset(-128), 0);
    assert_eq!(offset(i32::MIN), 0);
}

#[test]
fn held_keys_deflect_their_axis() {
    let pad = Gamepad::default();
    let state = |k: Keys| Viewer::new().cycle(&k, &pad).0.state;
    assert_eq!(state(keys()), ControlState::neutral());
    assert_eq!(state(Keys { w: true, ..keys() }).throttle, 192);
    assert_eq!(state(Keys { s: true, ..keys() }).throttle, 64);
    assert_eq!(state(Keys { w: true, s: true, ..keys() }).throttle, 64);
    assert_eq!(state(Keys { d: true, ..keys() }).yaw, 192);
    assert_eq!(state(Keys { a: true, ..keys() }).yaw, 64);
    assert_eq!(state(Keys { right: true, ..keys() }).roll, 192);
    assert_eq!(state(Keys { left: true, ..keys() }).roll, 64);
    assert_eq!(state(Keys { up: true, ..keys() }).pitch, 192);
    assert_eq!(state(Keys { down: true, ..keys() }).pitch, 64);
    assert_eq!(state(Keys { t: true, ..keys() }).flags, 0x01);
    assert_eq!(state(Keys { g: true, ..keys() }).flags, 0x02);
    assert_eq!(state(Keys { f: true, ..keys() }).flags, 0x08);
    assert_eq!(state(Keys { c: true, ..keys() }).flags, 0x80);
    assert_eq!(state(Keys { h_pressed: true, ..keys() }).flags, 0x10);
    assert_eq!(state(Keys { space: true, ..keys() }).flags, 0x04);
}

#[test]
fn gamepad_overrides_the_keys() {
    let pad = Gamepad { throttle: Some(3), roll: Some(4), south: true, ..Gamepad::default() };
    let k = Keys { w: true, a: true, ..keys() };
    let s = Viewer::new().cycle(&k, &pad).0.state;
    assert_eq!((s.throttle, s.yaw, s.roll, s.pitch, s.flags), (3, 64, 4, 128, 0x01));
    let pad = Gamepad { yaw: Some(5), pitch: Some(6), east: true, north: true, ..Gamepad::default() };
    let s = Viewer::new().cycle(&keys(), &pad).0.state;
    assert_eq!((s.throttle, s.yaw, s.roll, s.pitch, s.flags), (128, 5, 128, 6, 0x0a));
}

#[test]
fn enter_arms_and_disarms() {
    let mut v = Viewer::new();
    let mut link = ControlHandle::new(0);
    let pad = Gamepad::default();
    let enter = Keys { enter_pressed: true, ..keys() };
    let (cmd, title) = v.cycle(&keys(), &pad);
    transmit(cmd, &mut link, 0);
    assert_eq!((title, v.armed), (None, false));
    assert_eq!(link.packet(0, STALE_AFTER), idle_keepalive());
    let (cmd, title) = v.cycle(&enter, &pad);
    transmit(cmd, &mut link, 0);
    assert_eq!((title, v.armed), (Some(Title::Armed), true));
    assert_eq!(link.packet(0, STALE_AFTER), ControlState::neutral().encode());
    let (cmd, title) = v.cycle(&enter, &pad);
    transmit(cmd, &mut link, 0);
    assert_eq!((title, v.armed), (Some(Title::Disarmed), false));
    assert_eq!(link.packet(0, STALE_AFTER), idle_keepalive());
}

#[test]
fn start_button_arms_once_per_press() {
    let mut v = Viewer::new();
    let held = Gamepad { start: true, ..Gamepad::default() };
    assert!(v.cycle(&keys(), &held).0.toggled && v.armed);
    assert!(!v.cycle(&keys(), &held).0.toggled && v.armed);
    v.cycle(&keys(), &Gamepad::default());
    assert!(v.cycle(&keys(), &held).0.toggled && !v.armed);
}

#[test]
fn emergency_is_sent_whatever_else_is_pressed() {
    for select in [false, true] {
        let mut v = Viewer::new();
        let mut link = ControlHandle::new(0);
        let pad = Gamepad { select, ..Gamepad::default() };
        let k = Keys { enter_pressed: true, space: !select, w: true, ..keys() };
        let (cmd, title) = v.cycle(&k, &pad);
        transmit(cmd, &mut link, 0);
        let pkt = link.packet(0, STALE_AFTER);
        assert_eq!((pkt[0], pkt[5] & 0x04), (0x66, 0x04));
        assert_eq!((title, v.armed), (Some(Title::Emergency), false));
        let (cmd, _) = v.cycle(&keys(), &Gamepad::default());
        transmit(cmd, &mut link, 0);
        assert_eq!(link.packet(0, STALE_AFTER), idle_keepalive());
    }
}

#[test]
fn headless_stays_until_toggled() {
    let mut v = Viewer::new();
    let pad = Gamepad::default();
    v.cycle(&Keys { h_pressed: true, ..keys() }, &pad);
    assert_eq!(v.cycle(&keys(), &pad).0.state.flags, 0x10);
    assert_eq!(v.cycle(&Keys { h_pressed: true, ..keys() }, &pad).0.state.flags, 0);
}

#[test]
fn titles() {
    assert_eq!(Title::Disarmed.as_str(), "Skyraptor — DRCX5 [DISARMED]");
    assert_eq!(Title::Armed.as_str(), "Skyraptor — DRCX5 [ARMED]");
    assert_eq!(Title::Emergency.as_str(), "Skyraptor — DRCX5 [EMERGENCY]");
}

#[test]
fn border_shows_the_arm_state() {
    for (armed, color) in [(true, 0x0000_FF00), (false, 0x00FF_0000)] {
        let mut frame = vec![5u32; 240 * 320 + 1];
        draw_border(&mut frame, armed);
        for y in 0..320 {
            for x in 0..240 {
                let edge = x == 0 || x == 239 || y == 0 || y == 319;
                assert_eq!(frame[y * 240 + x], if edge { color } else { 5 });
            }
        }
        assert_eq!(frame[240 * 320], 5);
    }
}

#[test]
fn status_line_is_aligned() {
    let s = ControlState { roll: 5, pitch: 255, throttle: 64, yaw: 128, flags: 0x0a };
    assert_eq!(
        status_line(true, &s, 21),
        "[ARMED] thr= 64 yaw=128 roll=  5 pitch=255 flags=0a  21 fps"
    );
    assert_eq!(
        status_line(false, &ControlState::neutral(), 0),
        "[disarmed] thr=128 yaw=128 roll=128 pitch=128 flags=00  0 fps"
    );
}
