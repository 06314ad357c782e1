use glitchwing::pad::{handle_input, Hat, Pad, PadEvent, Sticks};
use glitchwing::settings::{Action, Bindings};

fn key(code: u32, down: bool) -> PadEvent {
    PadEvent::Key { code, down, repeat: 0 }
}

fn sticks() -> Sticks {
    Sticks { yaw: 1, throttle: 2, roll: 3, pitch: 4, hat_x: Hat::Positive, hat_y: Hat::Negative }
}

#[test]
fn untouched_pad_is_centered() {
    let p = Pad::default();
    assert_eq!((p.sticks.yaw, p.sticks.throttle, p.sticks.roll, p.sticks.pitch), (128, 128, 128, 128));
    assert_eq!((p.sticks.hat_x, p.sticks.hat_y), (Hat::Rest, Hat::Rest));
    assert!(!p.arm_toggle && !p.emergency && !p.tap);
}

#[test]
fn default_buttons() {
    let b = Bindings::default();
    for (code, want) in [
        (108, Pad { arm_toggle: true, ..Pad::default() }),
        (109, Pad { emergency: true, ..Pad::default() }),
        (110, Pad { emergency: true, ..Pad::default() }),
        (96, Pad { land: true, ..Pad::default() }),
        (97, Pad { takeoff: true, ..Pad::default() }),
        (100, Pad { flip: true, ..Pad::default() }),
        (99, Pad { calibrate: true, ..Pad::default() }),
        (102, Pad { headless_toggle: true, ..Pad::default() }),
        (103, Pad { trim_reset: true, ..Pad::default() }),
        (104, Pad::default()),
        (4, Pad::default()),
    ] {
        let mut p = Pad::default();
        assert!(handle_input(key(code, true), &mut p, &b), "every button is consumed");
        assert_eq!(p, want);
    }
}

#[test]
fn held_buttons_are_released_and_toggles_stay() {
    let b = Bindings::default();
    let mut p = Pad::default();
    for code in [96, 97, 99, 100, 102, 103, 108, 109] {
        handle_input(key(code, true), &mut p, &b);
        handle_input(key(code, false), &mut p, &b);
    }
    let want = Pad { arm_toggle: true, headless_toggle: true, trim_reset: true, ..Pad::default() };
    assert_eq!(p, want);
}

#[test]
fn repeats_toggle_nothing() {
    let b = Bindings::default();
    let mut p = Pad::default();
    for code in [108, 102, 103] {
        handle_input(PadEvent::Key { code, down: true, repeat: 1 }, &mut p, &b);
    }
    assert_eq!(p, Pad::default());
    handle_input(PadEvent::Key { code: 96, down: true, repeat: 3 }, &mut p, &b);
    assert!(p.land, "a held button stays held");
}

#[test]
fn rebound_buttons_do_the_new_thing() {
    let mut b = Bindings::default();
    b.set(Action::Emergency, 105);
    b.set(Action::Land, 96);
    let mut p = Pad::default();
    handle_input(key(109, true), &mut p, &b);
    assert!(!p.emergency);
    handle_input(key(105, true), &mut p, &b);
    assert!(p.emergency);
    handle_input(key(105, false), &mut p, &b);
    handle_input(key(110, true), &mut p, &b);
    assert!(p.emergency, "the mode button always cuts");
}

#[test]
fn joystick_motion_moves_the_sticks() {
    let b = Bindings::default();
    let mut p = Pad::default();
    let event = PadEvent::Motion { source: 0x0100_0010, touch: false, sticks: Some(sticks()) };
    assert!(handle_input(event, &mut p, &b));
    assert_eq!(p, Pad { sticks: sticks(), ..Pad::default() });
}

#[test]
fn other_motion_is_left_to_the_system() {
    let b = Bindings::default();
    let mut p = Pad::default();
    let mouse = PadEvent::Motion { source: 0x2002, touch: false, sticks: Some(sticks()) };
    assert!(!handle_input(mouse, &mut p, &b));
    let empty = PadEvent::Motion { source: 0x10, touch: false, sticks: None };
    assert!(!handle_input(empty, &mut p, &b));
    assert!(!handle_input(PadEvent::Other, &mut p, &b));
    assert_eq!(p, Pad::default());
}

#[test]
fn a_touch_is_a_tap() {
    let b = Bindings::default();
    let mut p = Pad::default();
    let touch = PadEvent::Motion { source: 0x1002, touch: true, sticks: None };
    assert!(!handle_input(touch, &mut p, &b));
    assert!(p.tap);
    assert!(p.take_tap());
    assert!(!p.take_tap());
}
