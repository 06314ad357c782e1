//! The flight loop's decisions: from the gamepad to what the drone is told.

use crate::net;
use crate::net::{ControlHandle, Controls, Nanos};
use crate::pad::{Hat, Pad};
use crate::protocol;
use crate::protocol::{
    apply_trim, ramp_toward, ControlState, CENTER, FLAG_CALIBRATE, FLAG_EMERGENCY, FLAG_FLIP,
    FLAG_HEADLESS, FLAG_LAND, FLAG_TAKEOFF,
};
use vstd::prelude::*;

verus! {

/// Largest trim either way.
pub const TRIM_LIMIT: i8 = 40;

/// Largest change of the throttle per cycle.
pub const THROTTLE_RAMP: u8 = 6;

/// One flag bit, if it is on.
pub open spec fn flag(on: bool, bit: u8) -> u8 {
    if on {
        bit
    } else {
        0
    }
}

/// The flag byte of a control packet.
pub open spec fn flags_of(
    takeoff: bool,
    land: bool,
    flip: bool,
    calibrate: bool,
    headless: bool,
    emergency: bool,
) -> u8 {
    flag(takeoff, FLAG_TAKEOFF) | flag(land, FLAG_LAND) | flag(flip, FLAG_FLIP) | flag(
        calibrate,
        FLAG_CALIBRATE,
    ) | flag(headless, FLAG_HEADLESS) | flag(emergency, FLAG_EMERGENCY)
}

fn flag_bit(on: bool, bit: u8) -> (r: u8)
    ensures
        r == flag(on, bit),
{
    if on {
        bit
    } else {
        0
    }
}

/// The flag byte of a control packet.
pub fn flag_byte(
    takeoff: bool,
    land: bool,
    flip: bool,
    calibrate: bool,
    headless: bool,
    emergency: bool,
) -> (flags: u8)
    ensures
        flags == flags_of(takeoff, land, flip, calibrate, headless, emergency),
{
    flag_bit(takeoff, FLAG_TAKEOFF) | flag_bit(land, FLAG_LAND) | flag_bit(flip, FLAG_FLIP)
        | flag_bit(calibrate, FLAG_CALIBRATE) | flag_bit(headless, FLAG_HEADLESS) | flag_bit(
        emergency,
        FLAG_EMERGENCY,
    )
}

/// Every flag can be read back from the flag byte.
pub proof fn flags_are_independent(
    takeoff: bool,
    land: bool,
    flip: bool,
    calibrate: bool,
    headless: bool,
    emergency: bool,
)
    ensures
        ({
            let f = flags_of(takeoff, land, flip, calibrate, headless, emergency);
            &&& (f & FLAG_TAKEOFF != 0) == takeoff
            &&& (f & FLAG_LAND != 0) == land
            &&& (f & FLAG_FLIP != 0) == flip
            &&& (f & FLAG_CALIBRATE != 0) == calibrate
            &&& (f & FLAG_HEADLESS != 0) == headless
            &&& (f & FLAG_EMERGENCY != 0) == emergency
        }),
{
    let a = flag(takeoff, FLAG_TAKEOFF);
    let b = flag(land, FLAG_LAND);
    let c = flag(flip, FLAG_FLIP);
    let d = flag(calibrate, FLAG_CALIBRATE);
    let e = flag(headless, FLAG_HEADLESS);
    let g = flag(emergency, FLAG_EMERGENCY);
    let f = a | b | c | d | e | g;
    assert((f & 0x01 != 0) == (a == 0x01) && (f & 0x02 != 0) == (b == 0x02) && (f & 0x08 != 0) == (c
        == 0x08) && (f & 0x80 != 0) == (d == 0x80) && (f & 0x10 != 0) == (e == 0x10) && (f & 0x04
        != 0) == (g == 0x04)) by (bit_vector)
        requires
            a == 0 || a == 0x01,
            b == 0 || b == 0x02,
            c == 0 || c == 0x08,
            d == 0 || d == 0x80,
            e == 0 || e == 0x10,
            g == 0 || g == 0x04,
            f == a | b | c | d | e | g,
    ;
}

/// Whether an axis of the D-pad has just gone past the threshold to the positive side.
pub open spec fn pushed_up(was: Hat, now: Hat) -> bool {
    now == Hat::Positive && (was == Hat::Rest || was == Hat::Negative)
}

/// Whether an axis of the D-pad has just gone past the threshold to the negative side.
pub open spec fn pushed_down(was: Hat, now: Hat) -> bool {
    now == Hat::Negative && (was == Hat::Rest || was == Hat::Positive)
}

/// A trim after one cycle: one more or one less per press, inside the limits.
pub open spec fn stepped_trim(trim: int, more: bool, less: bool) -> int {
    if more {
        if trim + 1 > TRIM_LIMIT {
            TRIM_LIMIT as int
        } else {
            trim + 1
        }
    } else if less {
        if trim - 1 < -TRIM_LIMIT {
            -TRIM_LIMIT
        } else {
            trim - 1
        }
    } else {
        trim
    }
}

fn step_trim(trim: i8, more: bool, less: bool) -> (t: i8)
    requires
        -TRIM_LIMIT <= trim <= TRIM_LIMIT,
    ensures
        t == stepped_trim(trim as int, more, less),
        -TRIM_LIMIT <= t <= TRIM_LIMIT,
{
    if more {
        if trim + 1 > TRIM_LIMIT {
            TRIM_LIMIT
        } else {
            trim + 1
        }
    } else if less {
        if trim - 1 < -TRIM_LIMIT {
            -TRIM_LIMIT
        } else {
            trim - 1
        }
    } else {
        trim
    }
}

/// What the flight loop remembers from one cycle to the next.
pub struct Flight {
    pub armed: bool,
    pub throttle: u8,
    pub trim_roll: int,
    pub trim_pitch: int,
    pub headless: bool,
    pub hat_x: Hat,
    pub hat_y: Hat,
}

/// At the start: disarmed, no trim, centered throttle.
pub open spec fn grounded() -> Flight {
    Flight {
        armed: false,
        throttle: CENTER,
        trim_roll: 0,
        trim_pitch: 0,
        headless: false,
        hat_x: Hat::Rest,
        hat_y: Hat::Rest,
    }
}

/// The roll trim that a cycle flies with.
pub open spec fn next_trim_roll(f: Flight, pad: Pad) -> int {
    if pad.trim_reset {
        0
    } else {
        stepped_trim(
            f.trim_roll,
            pushed_up(f.hat_x, pad.sticks.hat_x),
            pushed_down(f.hat_x, pad.sticks.hat_x),
        )
    }
}

/// The pitch trim that a cycle flies with: D-pad up is nose down, hence more.
pub open spec fn next_trim_pitch(f: Flight, pad: Pad) -> int {
    if pad.trim_reset {
        0
    } else {
        stepped_trim(
            f.trim_pitch,
            pushed_down(f.hat_y, pad.sticks.hat_y),
            pushed_up(f.hat_y, pad.sticks.hat_y),
        )
    }
}

/// The headless mode that a cycle flies with.
pub open spec fn next_headless(f: Flight, pad: Pad) -> bool {
    f.headless != pad.headless_toggle
}

/// The throttle that a cycle flies with: one ramp step toward the stick.
pub open spec fn next_throttle(f: Flight, pad: Pad) -> int {
    protocol::ramped(f.throttle as int, pad.sticks.throttle as int, THROTTLE_RAMP as int)
}

/// Whether the aircraft is armed after a cycle: an emergency disarms, and then the
/// toggle counts if there is a link.
pub open spec fn next_armed(f: Flight, pad: Pad, linked: bool) -> bool {
    let still = f.armed && !pad.emergency;
    if linked && pad.arm_toggle {
        !still
    } else {
        still
    }
}

/// The control state that a cycle asks for.
pub open spec fn flown(f: Flight, pad: Pad) -> ControlState {
    ControlState {
        roll: protocol::trimmed(pad.sticks.roll, next_trim_roll(f, pad) as i8) as u8,
        pitch: protocol::trimmed(pad.sticks.pitch, next_trim_pitch(f, pad) as i8) as u8,
        throttle: next_throttle(f, pad) as u8,
        yaw: pad.sticks.yaw,
        flags: flags_of(
            pad.takeoff,
            pad.land,
            pad.flip,
            pad.calibrate,
            next_headless(f, pad),
            pad.emergency,
        ),
    }
}

/// What is remembered after a cycle. Arming starts the ramp over from the center.
pub open spec fn next_flight(f: Flight, pad: Pad, linked: bool) -> Flight {
    let armed = next_armed(f, pad, linked);
    Flight {
        armed,
        throttle: if linked && pad.arm_toggle && armed {
            CENTER
        } else {
            next_throttle(f, pad) as u8
        },
        trim_roll: next_trim_roll(f, pad),
        trim_pitch: next_trim_pitch(f, pad),
        headless: next_headless(f, pad),
        hat_x: pad.sticks.hat_x,
        hat_y: pad.sticks.hat_y,
    }
}

/// The pad after a cycle: the one-shot requests are taken.
pub open spec fn taken(pad: Pad) -> Pad {
    Pad { arm_toggle: false, headless_toggle: false, trim_reset: false, ..pad }
}

/// What one cycle asks of the link.
#[derive(Clone, Copy, Debug, PartialEq, Eq, Structural)]
pub struct Command {
    pub state: ControlState,
    /// The arm button was pressed.
    pub toggled: bool,
    pub emergency: bool,
    /// Armed after the toggle.
    pub armed: bool,
}

/// What a cycle asks of the link.
pub open spec fn command(f: Flight, pad: Pad, linked: bool) -> Command {
    Command {
        state: flown(f, pad),
        toggled: linked && pad.arm_toggle,
        emergency: pad.emergency,
        armed: next_armed(f, pad, linked),
    }
}

/// The link's controls after a command: the toggle first, then the emergency, which
/// has to be armed to be transmitted, then the state; without either the link ends
/// up as the aircraft is.
pub open spec fn commanded(c: Controls, cmd: Command, now: int) -> Controls {
    let toggled = if !cmd.toggled {
        c
    } else if cmd.armed {
        net::with_arm(c, now)
    } else {
        net::with_disarm(c)
    };
    let forced = if cmd.emergency {
        net::with_arm(toggled, now)
    } else {
        toggled
    };
    let set = net::with_state(forced, cmd.state, now);
    if !cmd.armed && !cmd.emergency {
        net::with_disarm(set)
    } else {
        set
    }
}

/// Hands a command to the link.
pub fn transmit(cmd: Command, control: &mut ControlHandle, now: Nanos)
    ensures
        final(control)@ == commanded(old(control)@, cmd, now as int),
{
    if cmd.toggled {
        if cmd.armed {
            control.arm(now);
        } else {
            control.disarm();
        }
    }
    if cmd.emergency {
        control.arm(now);
    }
    control.set(cmd.state, now);
    if !cmd.armed && !cmd.emergency {
        control.disarm();
    }
}

/// The flight loop's state.
#[derive(Clone, Copy, Debug)]
pub struct Cockpit {
    armed: bool,
    throttle: u8,
    trim_roll: i8,
    trim_pitch: i8,
    headless: bool,
    hat_x: Hat,
    hat_y: Hat,
}

impl View for Cockpit {
    type V = Flight;

    closed spec fn view(&self) -> Flight {
        Flight {
            armed: self.armed,
            throttle: self.throttle,
            trim_roll: self.trim_roll as int,
            trim_pitch: self.trim_pitch as int,
            headless: self.headless,
            hat_x: self.hat_x,
            hat_y: self.hat_y,
        }
    }
}

impl Cockpit {
    #[verifier::type_invariant]
    closed spec fn trimmed_within_limits(self) -> bool {
        &&& -TRIM_LIMIT <= self.trim_roll <= TRIM_LIMIT
        &&& -TRIM_LIMIT <= self.trim_pitch <= TRIM_LIMIT
    }

    /// Disarmed, no trim, centered throttle.
    pub fn new() -> (c: Self)
        ensures
            c@ == grounded(),
    {
        Cockpit {
            armed: false,
            throttle: CENTER,
            trim_roll: 0,
            trim_pitch: 0,
            headless: false,
            hat_x: Hat::Rest,
            hat_y: Hat::Rest,
        }
    }

    /// Whether active commands are allowed.
    pub fn armed(&self) -> (b: bool)
        ensures
            b == self@.armed,
    {
        self.armed
    }

    /// Whether headless mode is on.
    pub fn headless(&self) -> (b: bool)
        ensures
            b == self@.headless,
    {
        self.headless
    }

    /// The roll trim.
    pub fn trim_roll(&self) -> (t: i8)
        ensures
            t == self@.trim_roll,
            -TRIM_LIMIT <= t <= TRIM_LIMIT,
    {
        proof {
            use_type_invariant(self);
        }
        self.trim_roll
    }

    /// The pitch trim.
    pub fn trim_pitch(&self) -> (t: i8)
        ensures
            t == self@.trim_pitch,
            -TRIM_LIMIT <= t <= TRIM_LIMIT,
    {
        proof {
            use_type_invariant(self);
        }
        self.trim_pitch
    }

    /// One cycle: takes the pad's requests, and returns what the link, if there is one,
    /// is to be told.
    pub fn cycle(&mut self, pad: &mut Pad, linked: bool) -> (cmd: Command)
        ensures
            final(self)@ == next_flight(old(self)@, *old(pad), linked),
            *final(pad) == taken(*old(pad)),
            cmd == command(old(self)@, *old(pad), linked),
    {
        proof {
            use_type_invariant(&*self);
        }
        let p = *pad;
        let was = *self;
        let trim_roll: i8 = if p.trim_reset {
            0
        } else {
            step_trim(
                was.trim_roll,
                rose(was.hat_x, p.sticks.hat_x),
                fell(was.hat_x, p.sticks.hat_x),
            )
        };
        let trim_pitch: i8 = if p.trim_reset {
            0
        } else {
            step_trim(
                was.trim_pitch,
                fell(was.hat_y, p.sticks.hat_y),
                rose(was.hat_y, p.sticks.hat_y),
            )
        };
        let headless = was.headless != p.headless_toggle;
        let throttle = ramp_toward(was.throttle, p.sticks.throttle, THROTTLE_RAMP);
        let state = ControlState {
            roll: apply_trim(p.sticks.roll, trim_roll),
            pitch: apply_trim(p.sticks.pitch, trim_pitch),
            throttle,
            yaw: p.sticks.yaw,
            flags: flag_byte(p.takeoff, p.land, p.flip, p.calibrate, headless, p.emergency),
        };
        let still = was.armed && !p.emergency;
        let toggled = linked && p.arm_toggle;
        let armed = if toggled {
            !still
        } else {
            still
        };
        *self = Cockpit {
            armed,
            throttle: if toggled && armed {
                CENTER
            } else {
                throttle
            },
            trim_roll,
            trim_pitch,
            headless,
            hat_x: p.sticks.hat_x,
            hat_y: p.sticks.hat_y,
        };
        *pad = Pad { arm_toggle: false, headless_toggle: false, trim_reset: false, ..p };
        Command { state, toggled, emergency: p.emergency, armed }
    }
}

fn rose(was: Hat, now: Hat) -> (b: bool)
    ensures
        b == pushed_up(was, now),
{
    now == Hat::Positive && (was == Hat::Rest || was == Hat::Negative)
}

fn fell(was: Hat, now: Hat) -> (b: bool)
    ensures
        b == pushed_down(was, now),
{
    now == Hat::Negative && (was == Hat::Rest || was == Hat::Positive)
}

/// Nothing arms the aircraft but the arm button, with a link to arm.
pub proof fn only_the_button_arms(f: Flight, pad: Pad, linked: bool)
    ensures
        next_flight(f, pad, linked).armed && !f.armed ==> linked && pad.arm_toggle,
        !linked ==> next_flight(f, pad, linked).armed == (f.armed && !pad.emergency),
        !grounded().armed,
{
}

/// An emergency disarms, and the cut is transmitted: the very next packet carries the
/// emergency flag. (Pressing the arm button in the same cycle arms again.)
pub proof fn emergency_cuts_motors(
    f: Flight,
    pad: Pad,
    linked: bool,
    c: Controls,
    now: int,
    stale_after: int,
)
    requires
        pad.emergency,
        !(linked && pad.arm_toggle),
        stale_after > 0,
    ensures
        !next_flight(f, pad, linked).armed,
        net::sent(commanded(c, command(f, pad, linked), now), now, stale_after) == flown(
            f,
            pad,
        ).packet(),
        flown(f, pad).flags & FLAG_EMERGENCY != 0,
{
    flags_are_independent(
        pad.takeoff,
        pad.land,
        pad.flip,
        pad.calibrate,
        next_headless(f, pad),
        pad.emergency,
    );
}

/// While the aircraft is disarmed and there is no emergency, the link is left
/// disarmed: only the idle keepalive goes out.
pub proof fn disarmed_aircraft_idles(c: Controls, cmd: Command, at: int, now: int, stale_after: int)
    requires
        !cmd.armed,
        !cmd.emergency,
    ensures
        net::sent(commanded(c, cmd, at), now, stale_after) == protocol::idle_packet(),
{
}

/// An armed aircraft transmits what the cycle asked for, as long as the next cycle
/// comes in time.
pub proof fn armed_aircraft_obeys(c: Controls, cmd: Command, at: int, now: int, stale_after: int)
    requires
        cmd.armed,
        cmd.toggled || c.armed,
        net::elapsed(at, now) < stale_after,
    ensures
        net::sent(commanded(c, cmd, at), now, stale_after) == cmd.state.packet(),
{
}

/// The link agrees with the aircraft after every cycle: armed if the aircraft is or
/// an emergency is held, provided that it agreed before.
pub proof fn link_follows_aircraft(
    f: Flight,
    pad: Pad,
    c: Controls,
    emergency_before: bool,
    now: int,
)
    requires
        c.armed == (f.armed || emergency_before),
    ensures
        ({
            let after = commanded(c, command(f, pad, true), now);
            &&& after.armed == (next_flight(f, pad, true).armed || pad.emergency)
            &&& after.state == flown(f, pad)
            &&& after.updated == now
        }),
{
}

/// The aircraft and the link after some cycles, each with its pad and its time.
pub open spec fn after_cycles(f: Flight, c: Controls, cycles: Seq<(Pad, int)>) -> (Flight, Controls)
    decreases cycles.len(),
{
    if cycles.len() == 0 {
        (f, c)
    } else {
        let (g, d) = after_cycles(f, c, cycles.drop_last());
        let (pad, now) = cycles.last();
        (next_flight(g, pad, true), commanded(d, command(g, pad, true), now))
    }
}

/// From the start on, as long as nobody presses the arm or the emergency button, only
/// the idle keepalive goes out, whatever else is pressed.
pub proof fn no_motor_command_before_arming(
    start: int,
    cycles: Seq<(Pad, int)>,
    now: int,
    stale_after: int,
)
    requires
        forall|i: int|
            0 <= i < cycles.len() ==> !(#[trigger] cycles[i]).0.arm_toggle
                && !cycles[i].0.emergency,
    ensures
        !after_cycles(grounded(), net::idle_controls(start), cycles).0.armed,
        net::sent(
            after_cycles(grounded(), net::idle_controls(start), cycles).1,
            now,
            stale_after,
        ) == protocol::idle_packet(),
    decreases cycles.len(),
{
    if cycles.len() > 0 {
        let front = cycles.drop_last();
        assert forall|i: int| 0 <= i < front.len() implies !(#[trigger] front[i]).0.arm_toggle
            && !front[i].0.emergency by {
            assert(front[i] == cycles[i]);
        }
        no_motor_command_before_arming(start, front, now, stale_after);
        assert(!cycles[cycles.len() - 1].0.arm_toggle);
    }
}

/// The throttle changes by at most one ramp step per cycle, and lies between where it
/// was and where the stick is.
pub proof fn throttle_is_ramped(f: Flight, pad: Pad)
    ensures
        protocol::distance(f.throttle as int, flown(f, pad).throttle as int) <= THROTTLE_RAMP,
        protocol::distance(flown(f, pad).throttle as int, pad.sticks.throttle as int)
            <= protocol::distance(f.throttle as int, pad.sticks.throttle as int),
{
}

/// A D-pad press trims by one, once: holding it changes nothing more, and the limits
/// are never passed.
pub proof fn trim_steps_once_per_press(f: Flight, pad: Pad, linked: bool)
    requires
        -TRIM_LIMIT <= f.trim_roll <= TRIM_LIMIT,
        -TRIM_LIMIT <= f.trim_pitch <= TRIM_LIMIT,
    ensures
        ({
            let g = next_flight(f, pad, linked);
            let held = taken(pad);
            &&& -TRIM_LIMIT <= g.trim_roll <= TRIM_LIMIT
            &&& -TRIM_LIMIT <= g.trim_pitch <= TRIM_LIMIT
            &&& next_flight(g, held, linked).trim_roll == g.trim_roll
            &&& next_flight(g, held, linked).trim_pitch == g.trim_pitch
            &&& !pad.trim_reset ==> protocol::distance(f.trim_roll, g.trim_roll) <= 1
            &&& !pad.trim_reset ==> protocol::distance(f.trim_pitch, g.trim_pitch) <= 1
            &&& pad.trim_reset ==> g.trim_roll == 0 && g.trim_pitch == 0
        }),
{
}

/// Each button of the pad, and headless mode, has its own bit in the flags that a cycle
/// asks for: the bit is set exactly while the button is held, whatever the others do.
/// No other bit is ever set.
pub proof fn every_button_has_its_flag(f: Flight, pad: Pad, linked: bool)
    ensures
        ({
            let flags = command(f, pad, linked).state.flags;
            &&& (flags & 0x01 != 0) == pad.takeoff
            &&& (flags & 0x02 != 0) == pad.land
            &&& (flags & 0x04 != 0) == pad.emergency
            &&& (flags & 0x08 != 0) == pad.flip
            &&& (flags & 0x10 != 0) == next_flight(f, pad, linked).headless
            &&& (flags & 0x80 != 0) == pad.calibrate
            &&& flags & 0x60 == 0
        }),
{
    let headless = next_headless(f, pad);
    flags_are_independent(
        pad.takeoff,
        pad.land,
        pad.flip,
        pad.calibrate,
        headless,
        pad.emergency,
    );
    flags_leave_two_bits(
        pad.takeoff,
        pad.land,
        pad.flip,
        pad.calibrate,
        headless,
        pad.emergency,
    );
}

/// Two bits of the flag byte mean nothing, and are never set.
pub proof fn flags_leave_two_bits(
    takeoff: bool,
    land: bool,
    flip: bool,
    calibrate: bool,
    headless: bool,
    emergency: bool,
)
    ensures
        flags_of(takeoff, land, flip, calibrate, headless, emergency) & 0x60 == 0,
{
    let a = flag(takeoff, FLAG_TAKEOFF);
    let b = flag(land, FLAG_LAND);
    let c = flag(flip, FLAG_FLIP);
    let d = flag(calibrate, FLAG_CALIBRATE);
    let e = flag(headless, FLAG_HEADLESS);
    let g = flag(emergency, FLAG_EMERGENCY);
    let x = a | b | c | d | e | g;
    assert(x & 0x60 == 0) by (bit_vector)
        requires
            a == 0 || a == 0x01,
            b == 0 || b == 0x02,
            c == 0 || c == 0x08,
            d == 0 || d == 0x80,
            e == 0 || e == 0x10,
            g == 0 || g == 0x04,
            x == a | b | c | d | e | g,
    ;
}

/// The sticks fly the aircraft: yaw as it is, roll and pitch moved by the trims that the
/// cycle ends up with, as far as a byte goes, and the throttle up to six toward the
/// stick. None of them depends on a button, on the link, or on being armed.
pub proof fn sticks_fly(f: Flight, pad: Pad, linked: bool)
    requires
        -TRIM_LIMIT <= f.trim_roll <= TRIM_LIMIT,
        -TRIM_LIMIT <= f.trim_pitch <= TRIM_LIMIT,
    ensures
        ({
            let s = command(f, pad, linked).state;
            let g = next_flight(f, pad, linked);
            let roll = pad.sticks.roll + g.trim_roll;
            let pitch = pad.sticks.pitch + g.trim_pitch;
            let (was, goal) = (f.throttle as int, pad.sticks.throttle as int);
            &&& s.yaw == pad.sticks.yaw
            &&& 0 <= roll <= 255 ==> s.roll == roll
            &&& roll < 0 ==> s.roll == 0
            &&& roll > 255 ==> s.roll == 255
            &&& 0 <= pitch <= 255 ==> s.pitch == pitch
            &&& pitch < 0 ==> s.pitch == 0
            &&& pitch > 255 ==> s.pitch == 255
            &&& was - 6 <= goal <= was + 6 ==> s.throttle == goal
            &&& goal > was + 6 ==> s.throttle == was + 6
            &&& goal < was - 6 ==> s.throttle == was - 6
        }),
{
}

/// A press of the D-pad moves a trim by one: right rolls right, left rolls left, up
/// pitches forward, down pitches back. Forty either way is the most; the reset takes
/// both back to zero. A direction counts once, when it is first seen.
pub proof fn hat_trims(f: Flight, pad: Pad, linked: bool)
    requires
        -40 <= f.trim_roll <= 40,
        -40 <= f.trim_pitch <= 40,
    ensures
        ({
            let g = next_flight(f, pad, linked);
            let (x, y) = (pad.sticks.hat_x, pad.sticks.hat_y);
            let right = x == Hat::Positive && f.hat_x != Hat::Positive && f.hat_x
                != Hat::Undefined;
            let left = x == Hat::Negative && f.hat_x != Hat::Negative && f.hat_x
                != Hat::Undefined;
            let up = y == Hat::Negative && f.hat_y != Hat::Negative && f.hat_y != Hat::Undefined;
            let down = y == Hat::Positive && f.hat_y != Hat::Positive && f.hat_y
                != Hat::Undefined;
            &&& g.hat_x == x && g.hat_y == y
            &&& pad.trim_reset ==> g.trim_roll == 0 && g.trim_pitch == 0
            &&& !pad.trim_reset && right && f.trim_roll < 40 ==> g.trim_roll == f.trim_roll + 1
            &&& !pad.trim_reset && left && f.trim_roll > -40 ==> g.trim_roll == f.trim_roll - 1
            &&& !pad.trim_reset && !(right && f.trim_roll < 40) && !(left && f.trim_roll > -40)
                ==> g.trim_roll == f.trim_roll
            &&& !pad.trim_reset && up && f.trim_pitch < 40 ==> g.trim_pitch == f.trim_pitch + 1
            &&& !pad.trim_reset && down && f.trim_pitch > -40 ==> g.trim_pitch == f.trim_pitch - 1
            &&& !pad.trim_reset && !(up && f.trim_pitch < 40) && !(down && f.trim_pitch > -40)
                ==> g.trim_pitch == f.trim_pitch
        }),
{
}

/// When the aircraft is armed after a cycle: with a link, the arm button arms what is
/// disarmed, or is cut in the same cycle, and disarms what is armed; an emergency
/// disarms; else nothing changes. Arming starts the throttle over from the center.
/// Headless mode changes with its button alone.
pub proof fn arming_follows_the_buttons(f: Flight, pad: Pad, linked: bool)
    ensures
        ({
            let g = next_flight(f, pad, linked);
            let cmd = command(f, pad, linked);
            let pressed = linked && pad.arm_toggle;
            &&& pressed && !f.armed ==> g.armed
            &&& pressed && f.armed ==> g.armed == pad.emergency
            &&& !pressed && pad.emergency ==> !g.armed
            &&& !pressed && !pad.emergency ==> g.armed == f.armed
            &&& pressed && g.armed ==> g.throttle == 0x80
            &&& !(pressed && g.armed) ==> g.throttle == cmd.state.throttle
            &&& pad.headless_toggle ==> g.headless != f.headless
            &&& !pad.headless_toggle ==> g.headless == f.headless
            &&& cmd.armed == g.armed
            &&& cmd.toggled == pressed
            &&& cmd.emergency == pad.emergency
        }),
{
}

/// At the start nothing flies: disarmed, throttle centered, no trim, headless off.
pub proof fn flight_starts_on_the_ground()
    ensures
        !grounded().armed,
        !grounded().headless,
        grounded().throttle == 0x80,
        grounded().trim_roll == 0 && grounded().trim_pitch == 0,
        grounded().hat_x == Hat::Rest && grounded().hat_y == Hat::Rest,
{
}

/// A cycle takes the three one-shot requests, and leaves all that is held as it is.
pub proof fn cycle_takes_requests(pad: Pad)
    ensures
        ({
            let t = taken(pad);
            &&& !t.arm_toggle && !t.headless_toggle && !t.trim_reset
            &&& t.sticks == pad.sticks
            &&& t.emergency == pad.emergency
            &&& t.takeoff == pad.takeoff
            &&& t.land == pad.land
            &&& t.flip == pad.flip
            &&& t.calibrate == pad.calibrate
            &&& t.tap == pad.tap
        }),
{
}

/// What the link holds after a command: always the new state, fresh; armed by an
/// emergency or by arming, disarmed by a disarmed aircraft, and else as it was.
pub proof fn link_takes_the_command(c: Controls, cmd: Command, now: int)
    ensures
        ({
            let after = commanded(c, cmd, now);
            &&& after.state == cmd.state
            &&& after.updated == now
            &&& cmd.emergency ==> after.armed
            &&& !cmd.emergency && !cmd.armed ==> !after.armed
            &&& !cmd.emergency && cmd.armed && cmd.toggled ==> after.armed
            &&& !cmd.emergency && cmd.armed && !cmd.toggled ==> after.armed == c.armed
        }),
{
}

} // verus!
