use glitchwing::net::SECOND;
use glitchwing::pad::{Pad, PadEvent};
use glitchwing::session::{Session, Upkeep};
use glitchwing::settings::Bindings;
use glitchwing::watchdog::Join;

fn session() -> Session {
    Session::new(Bindings::default(), 0)
}

fn press(code: u32) -> PadEvent {
    PadEvent::Key { code, down: true, repeat: 0 }
}

#[test]
fn starts_untouched_and_disarmed() {
    let s = session();
    assert_eq!(s.pad, Pad::default());
    assert!(!s.cockpit.armed());
    assert_eq!(s.frame, 0);
}

#[test]
fn connection_is_kept_up_silently() {
    let mut s = session();
    let restart = Upkeep { join: Join::Nothing, restart: true };
    let nothing = Upkeep { join: Join::Nothing, restart: false };
    assert_eq!(s.begin(0, true), restart);
    assert_eq!(s.begin(SECOND, true), nothing);
    s.frame_shown(2 * SECOND);
    assert_eq!(s.begin(5 * SECOND, true), nothing);
    assert_eq!(s.begin(5 * SECOND + 1, true), restart);
    assert_eq!(s.frame, 4);
}

#[test]
fn a_tap_asks_for_the_wifi_once() {
    let mut s = session();
    assert!(!s.input(PadEvent::Motion { source: 0x1002, touch: true, sticks: None }));
    assert_eq!(s.begin(0, true).join, Join::Request);
    assert_eq!(s.begin(0, true).join, Join::Nothing);
}

#[test]
fn armed_flights_are_left_alone() {
    let mut s = session();
    assert!(s.input(press(108)));
    assert!(s.fly(true).armed);
    s.input(PadEvent::Motion { source: 0x1002, touch: true, sticks: None });
    let u = s.begin(100 * SECOND, true);
    assert_eq!(u, Upkeep { join: Join::Nothing, restart: false });
}

#[test]
fn display_shows_what_was_flown() {
    let mut s = session();
    s.input(press(102));
    s.begin(0, false);
    let cmd = s.fly(false);
    s.frame_shown(SECOND / 2);
    let r = s.readings(SECOND, &cmd, 42);
    assert_eq!((r.armed, r.connected, r.headless, r.fps), (false, true, true, 1));
    assert_eq!((r.throttle, r.yaw, r.roll, r.pitch), (128, 128, 128, 128));
    assert_eq!((r.frame, r.trim_roll, r.trim_pitch, r.throttle_fill), (1, 0, 0, 42));
    let r = s.readings(5 * SECOND / 2, &cmd, 0);
    assert!(!r.connected);
    assert_eq!(r.fps, 0);
}
