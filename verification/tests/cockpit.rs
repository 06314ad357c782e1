use glitchwing::cockpit::{flag_byte, transmit, Cockpit, TRIM_LIMIT};
use glitchwing::net::{failsafe_packet, ControlHandle, MILLISECOND, STALE_AFTER};
use glitchwing::pad::{Hat, Pad};
use glitchwing::protocol::{idle_keepalive, ControlState, FLAG_EMERGENCY};

/// Runs one cycle on a linked cockpit, and returns the packet that goes out.
fn fly(c: &mut Cockpit, pad: &mut Pad, link: &mut ControlHandle, now: u128) -> [u8; 8] {
    let cmd = c.cycle(pad, true);
    transmit(cmd, link, now);
    link.packet(now, STALE_AFTER)
}

#[test]
fn flag_bits() {
    assert_eq!(flag_byte(false, false, false, false, false, false), 0);
    assert_eq!(flag_byte(true, false, false, false, false, false), 0x01);
    assert_eq!(flag_byte(false, true, false, false, false, false), 0x02);
    assert_eq!(flag_byte(false, false, true, false, false, false), 0x08);
    assert_eq!(flag_byte(false, false, false, true, false, false), 0x80);
    assert_eq!(flag_byte(false, false, false, false, true, false), 0x10);
    assert_eq!(flag_byte(false, false, false, false, false, true), 0x04);
    assert_eq!(flag_byte(true, true, true, true, true, true), 0x9f);
}

#[test]
fn starts_disarmed_and_idle() {
    let (mut c, mut pad, mut link) = (Cockpit::new(), Pad::default(), ControlHandle::new(0));
    assert!(!c.armed());
    pad.takeoff = true;
    assert_eq!(fly(&mut c, &mut pad, &mut link, 0), idle_keepalive());
}

#[test]
fn arm_button_arms_and_disarms() {
    let (mut c, mut pad, mut link) = (Cockpit::new(), Pad::default(), ControlHandle::new(0));
    pad.arm_toggle = true;
    assert_eq!(fly(&mut c, &mut pad, &mut link, 0), ControlState::neutral().encode());
    assert!(c.armed() && !pad.arm_toggle);
    let pkt = fly(&mut c, &mut pad, &mut link, 40 * MILLISECOND);
    assert_eq!(pkt, ControlState::neutral().encode());
    assert_eq!(link.packet(240 * MILLISECOND, STALE_AFTER), failsafe_packet());
    pad.arm_toggle = true;
    assert_eq!(fly(&mut c, &mut pad, &mut link, 240 * MILLISECOND), idle_keepalive());
    assert!(!c.armed());
}

#[test]
fn arm_button_is_lost_without_a_link() {
    let (mut c, mut pad) = (Cockpit::new(), Pad::default());
    pad.arm_toggle = true;
    let cmd = c.cycle(&mut pad, false);
    assert!(!cmd.toggled && !c.armed() && !pad.arm_toggle);
}

#[test]
fn emergency_disarms_and_is_sent() {
    let (mut c, mut pad, mut link) = (Cockpit::new(), Pad::default(), ControlHandle::new(0));
    pad.arm_toggle = true;
    fly(&mut c, &mut pad, &mut link, 0);
    pad.emergency = true;
    let pkt = fly(&mut c, &mut pad, &mut link, 1);
    assert_eq!((pkt[0], pkt[5]), (0x66, FLAG_EMERGENCY));
    assert!(!c.armed());
    pad.emergency = false;
    assert_eq!(fly(&mut c, &mut pad, &mut link, 2), idle_keepalive());
}

#[test]
fn emergency_is_sent_while_disarmed() {
    let (mut c, mut pad, mut link) = (Cockpit::new(), Pad::default(), ControlHandle::new(0));
    pad.emergency = true;
    let pkt = fly(&mut c, &mut pad, &mut link, 0);
    assert_eq!((pkt[0], pkt[5]), (0x66, FLAG_EMERGENCY));
}

#[test]
fn arm_button_during_an_emergency_arms() {
    let (mut c, mut pad, mut link) = (Cockpit::new(), Pad::default(), ControlHandle::new(0));
    pad.emergency = true;
    pad.arm_toggle = true;
    fly(&mut c, &mut pad, &mut link, 0);
    assert!(c.armed());
}

#[test]
fn throttle_is_ramped_by_six() {
    let (mut c, mut pad) = (Cockpit::new(), Pad::default());
    pad.sticks.throttle = 255;
    for want in [134, 140, 146] {
        assert_eq!(c.cycle(&mut pad, true).state.throttle, want);
    }
    pad.sticks.throttle = 0;
    assert_eq!(c.cycle(&mut pad, true).state.throttle, 140);
    pad.sticks.throttle = 137;
    assert_eq!(c.cycle(&mut pad, true).state.throttle, 137);
}

#[test]
fn arming_starts_the_ramp_from_the_center() {
    let (mut c, mut pad) = (Cockpit::new(), Pad::default());
    pad.sticks.throttle = 0;
    for _ in 0..30 {
        c.cycle(&mut pad, true);
    }
    pad.arm_toggle = true;
    assert_eq!(c.cycle(&mut pad, true).state.throttle, 0);
    assert_eq!(c.cycle(&mut pad, true).state.throttle, 122);
}

#[test]
fn trim_steps_once_per_press_up_to_the_limit() {
    let (mut c, mut pad) = (Cockpit::new(), Pad::default());
    for _ in 0..60 {
        pad.sticks.hat_x = Hat::Positive;
        pad.sticks.hat_y = Hat::Positive;
        c.cycle(&mut pad, true);
        c.cycle(&mut pad, true);
        pad.sticks.hat_x = Hat::Rest;
        pad.sticks.hat_y = Hat::Rest;
        c.cycle(&mut pad, true);
    }
    assert_eq!((c.trim_roll(), c.trim_pitch()), (TRIM_LIMIT, -TRIM_LIMIT));
    pad.sticks.hat_x = Hat::Negative;
    pad.sticks.hat_y = Hat::Negative;
    let cmd = c.cycle(&mut pad, true);
    assert_eq!((c.trim_roll(), c.trim_pitch()), (39, -39));
    assert_eq!((cmd.state.roll, cmd.state.pitch), (128 + 39, 128 - 39));
    pad.trim_reset = true;
    c.cycle(&mut pad, true);
    assert_eq!((c.trim_roll(), c.trim_pitch()), (0, 0));
    assert!(!pad.trim_reset);
}

#[test]
fn hat_flips_count_and_undefined_ones_do_not() {
    let (mut c, mut pad) = (Cockpit::new(), Pad::default());
    for hat in [Hat::Positive, Hat::Negative, Hat::Positive, Hat::Undefined, Hat::Positive] {
        pad.sticks.hat_x = hat;
        c.cycle(&mut pad, true);
    }
    assert_eq!(c.trim_roll(), 1);
}

#[test]
fn headless_is_toggled_and_sent() {
    let (mut c, mut pad) = (Cockpit::new(), Pad::default());
    pad.headless_toggle = true;
    assert_eq!(c.cycle(&mut pad, true).state.flags, 0x10);
    assert!(c.headless() && !pad.headless_toggle);
    assert_eq!(c.cycle(&mut pad, true).state.flags, 0x10);
    pad.headless_toggle = true;
    assert_eq!(c.cycle(&mut pad, true).state.flags, 0);
}

#[test]
fn sticks_pass_through() {
    let (mut c, mut pad) = (Cockpit::new(), Pad::default());
    pad.sticks.roll = 200;
    pad.sticks.pitch = 50;
    pad.sticks.yaw = 10;
    let s = c.cycle(&mut pad, true).state;
    assert_eq!((s.roll, s.pitch, s.yaw), (200, 50, 10));
}

#[test]
fn no_motor_command_before_arming() {
    let (mut c, mut pad, mut link) = (Cockpit::new(), Pad::default(), ControlHandle::new(0));
    for i in 0..500u32 {
        pad.sticks.throttle = (i * 37) as u8;
        pad.sticks.roll = (i * 11) as u8;
        pad.takeoff = i % 2 == 0;
        pad.land = i % 3 == 0;
        pad.flip = i % 5 == 0;
        pad.calibrate = i % 7 == 0;
        pad.headless_toggle = i % 11 == 0;
        let now = i as u128 * 16 * MILLISECOND;
        assert_eq!(fly(&mut c, &mut pad, &mut link, now), idle_keepalive());
    }
    assert!(!c.armed());
}

#[test]
fn link_agrees_with_the_aircraft() {
    let (mut c, mut pad, mut link) = (Cockpit::new(), Pad::default(), ControlHandle::new(0));
    for i in 0..200u32 {
        pad.arm_toggle = i % 5 == 0;
        pad.emergency = i % 13 == 0;
        let pkt = fly(&mut c, &mut pad, &mut link, i as u128);
        assert_eq!(pkt[0] == 0x66, c.armed() || pad.emergency);
    }
}
