use glitchwing::net::{
    command_packet, elapsed_since, failsafe_packet, ControlHandle, Endpoint, LinkConfig,
    Ticker, CONTROL_PORT, DRONE_IP, MILLISECOND, SECOND, SEND_INTERVAL, STALE_AFTER,
    VIDEO_PORT, VIDEO_REQUEST_INTERVAL, VIDEO_START,
};
use glitchwing::protocol::{idle_keepalive, ControlState, FLAG_LAND};

fn climb() -> ControlState {
    ControlState { throttle: 0x87, ..ControlState::neutral() }
}

#[test]
fn disarmed_sends_idle_keepalive() {
    assert_eq!(command_packet(false, climb(), 0, STALE_AFTER), idle_keepalive());
}

#[test]
fn armed_and_fresh_sends_current_state() {
    assert_eq!(command_packet(true, climb(), 10 * MILLISECOND, STALE_AFTER), climb().encode());
}

#[test]
fn armed_but_stale_sends_failsafe_land() {
    let pkt = command_packet(true, climb(), 300 * MILLISECOND, STALE_AFTER);
    assert_eq!(pkt, failsafe_packet());
    assert_ne!(pkt, climb().encode(), "must not keep commanding climb when stale");
    assert_eq!(pkt[5] & FLAG_LAND, FLAG_LAND, "failsafe must set the land flag");
}

#[test]
fn staleness_boundary_is_inclusive() {
    // Exactly at the threshold counts as stale.
    let pkt = command_packet(true, climb(), STALE_AFTER, STALE_AFTER);
    assert_eq!(pkt, failsafe_packet());
}

#[test]
fn failsafe_is_neutral_sticks_with_land() {
    assert_eq!(failsafe_packet(), [0x66, 0x80, 0x80, 0x80, 0x80, 0x02, 0x02, 0x99]);
}

#[test]
fn default_link_talks_to_the_drone() {
    let cfg = LinkConfig::default();
    assert_eq!(cfg.control_addr, Endpoint { ip: [192, 168, 4, 153], port: 8090 });
    assert_eq!(cfg.video_addr, Endpoint { ip: [192, 168, 4, 153], port: 8080 });
    assert_eq!(cfg.send_interval, 40 * MILLISECOND);
    assert_eq!(cfg.stale_after, 200 * MILLISECOND);
    assert_eq!(DRONE_IP, [192, 168, 4, 153]);
    assert_eq!((CONTROL_PORT, VIDEO_PORT), (8090, 8080));
    assert_eq!(VIDEO_START, [0x42, 0x76]);
    assert_eq!(SEND_INTERVAL, 40_000_000);
}

#[test]
fn handle_sends_idle_then_active_then_failsafe() {
    let stale_after = 150 * MILLISECOND;
    let mut h = ControlHandle::new(0);
    assert_eq!(h.packet(SECOND, stale_after), idle_keepalive());
    h.set(climb(), SECOND);
    assert_eq!(h.packet(SECOND, stale_after), idle_keepalive(), "setting a state arms nothing");
    h.arm(SECOND);
    assert_eq!(h.packet(SECOND + 149 * MILLISECOND, stale_after), climb().encode());
    assert_eq!(h.packet(SECOND + 150 * MILLISECOND, stale_after), failsafe_packet());
    assert_eq!(h.packet(3600 * SECOND, stale_after), failsafe_packet(), "it stays that way");
    h.set(climb(), 3600 * SECOND);
    assert_eq!(h.packet(3600 * SECOND, stale_after), climb().encode());
    h.disarm();
    assert_eq!(h.packet(3600 * SECOND, stale_after), idle_keepalive());
}

#[test]
fn arming_counts_as_fresh_input() {
    let mut h = ControlHandle::new(0);
    h.arm(10 * SECOND);
    assert_eq!(h.packet(10 * SECOND, STALE_AFTER), ControlState::neutral().encode());
    assert_eq!(h.packet(10 * SECOND + STALE_AFTER, STALE_AFTER), failsafe_packet());
}

#[test]
fn first_byte_tells_armed_from_idle() {
    let mut h = ControlHandle::new(0);
    assert_eq!(h.packet(0, STALE_AFTER)[0], 0xAA);
    h.arm(0);
    assert_eq!(h.packet(0, STALE_AFTER)[0], 0x66);
    assert_eq!(h.packet(SECOND, STALE_AFTER)[0], 0x66);
}

#[test]
fn time_never_runs_backwards() {
    assert_eq!(elapsed_since(5, 12), 7);
    assert_eq!(elapsed_since(12, 5), 0);
}

#[test]
fn video_is_requested_once_a_second() {
    let mut v = Ticker::new(SECOND, VIDEO_REQUEST_INTERVAL);
    assert!(!v.due(2 * SECOND - 1));
    assert!(v.due(2 * SECOND));
    assert_eq!(v.last, 2 * SECOND);
    assert!(!v.due(2 * SECOND));
    assert!(v.due(4 * SECOND));
}
