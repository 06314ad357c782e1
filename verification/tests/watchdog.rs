use glitchwing::net::{MILLISECOND, SECOND};
use glitchwing::watchdog::{FrameMeter, Join, Watchdog};

#[test]
fn restarts_when_no_video_arrives() {
    let mut w = Watchdog::new();
    assert!(w.restart_due(0, false), "at once");
    assert!(!w.restart_due(2 * SECOND, false), "too soon");
    assert!(w.restart_due(2 * SECOND + 1, false));
    w.frame_shown(5 * SECOND);
    assert!(!w.restart_due(8 * SECOND, false));
    assert!(w.restart_due(8 * SECOND + 1, false));
}

#[test]
fn never_restarts_while_armed() {
    let mut w = Watchdog::new();
    assert!(!w.restart_due(100 * SECOND, true));
    assert_eq!(w.last_attempt, None);
}

#[test]
fn joins_on_a_tap_only() {
    let mut w = Watchdog::new();
    assert_eq!(w.join(0, false, false, true), Join::Nothing);
    assert_eq!(w.join(100 * SECOND, false, false, true), Join::Nothing);
    assert_eq!(w.join(0, false, true, true), Join::Request);
    assert_eq!(w.join(1, false, true, true), Join::Request, "a second tap asks again");
    assert_eq!(w.join(0, true, true, true), Join::Nothing, "not in flight");
    w.frame_shown(SECOND);
    assert_eq!(w.join(2 * SECOND, false, true, true), Join::Nothing, "not with video");
    assert_eq!(w.join(5 * SECOND, false, true, true), Join::Request);
}

#[test]
fn missing_permission_is_reported_once() {
    let mut w = Watchdog::new();
    assert_eq!(w.join(0, false, true, false), Join::Warn);
    assert_eq!(w.join(0, false, true, false), Join::Nothing);
    assert_eq!(w.join(0, false, true, true), Join::Request);
}

#[test]
fn connected_for_two_seconds_after_a_frame() {
    let mut w = Watchdog::new();
    assert!(!w.connected(0));
    w.frame_shown(SECOND);
    assert!(w.connected(3 * SECOND - 1));
    assert!(!w.connected(3 * SECOND));
}

#[test]
fn frame_rate_is_counted_per_second() {
    let mut m = FrameMeter::new(0);
    for i in 0..21 {
        m.frame();
        m.refresh(i * 45 * MILLISECOND);
    }
    assert_eq!((m.count, m.shown), (21, 0));
    m.refresh(SECOND);
    assert_eq!((m.count, m.shown, m.since), (0, 21, SECOND));
    m.refresh(2 * SECOND);
    assert_eq!(m.shown, 0);
}
