//! A flight session: gamepad, cockpit, connection and display together, from one
//! cycle to the next.

use crate::cockpit;
use crate::cockpit::{Cockpit, Command};
use crate::display::Readings;
use crate::net;
use crate::net::Nanos;
use crate::pad;
use crate::pad::{handle_input, Pad, PadEvent};
use crate::settings::Bindings;
use crate::watchdog::{FrameMeter, Join, Watchdog, CONNECTED_FOR};
use vstd::prelude::*;

verus! {

/// What a session remembers.
pub struct Session {
    pub bindings: Bindings,
    pub pad: Pad,
    pub cockpit: Cockpit,
    pub watchdog: Watchdog,
    pub meter: FrameMeter,
    /// Counts the cycles.
    pub frame: u64,
}

/// What the connection needs at the start of a cycle.
#[derive(Clone, Copy, Debug, PartialEq, Eq, Structural)]
pub struct Upkeep {
    pub join: Join,
    /// Bind to the drone's WiFi and, if that works, start the link over.
    pub restart: bool,
}

/// What the display shows at the end of a cycle.
pub open spec fn shown(
    flight: cockpit::Flight,
    watchdog: Watchdog,
    meter: FrameMeter,
    frame: u64,
    cmd: Command,
    fill: usize,
    now: int,
) -> Readings {
    Readings {
        armed: flight.armed,
        connected: watchdog.is_connected(now),
        fps: meter.shown,
        throttle: cmd.state.throttle,
        yaw: cmd.state.yaw,
        roll: cmd.state.roll,
        pitch: cmd.state.pitch,
        frame,
        trim_roll: flight.trim_roll as i8,
        trim_pitch: flight.trim_pitch as i8,
        headless: flight.headless,
        throttle_fill: fill,
    }
}

impl Session {
    /// Disarmed, untouched, without video.
    pub fn new(bindings: Bindings, now: Nanos) -> (s: Self)
        ensures
            s.bindings == bindings,
            s.pad == pad::idle_pad(),
            s.cockpit@ == cockpit::grounded(),
            s.watchdog == (Watchdog { last_frame: None, last_attempt: None, warned: false }),
            s.meter == (FrameMeter { count: 0, shown: 0, since: now }),
            s.frame == 0,
    {
        Session {
            bindings,
            pad: Pad::default(),
            cockpit: Cockpit::new(),
            watchdog: Watchdog::new(),
            meter: FrameMeter::new(now),
            frame: 0,
        }
    }

    /// Starts a cycle: counts it, takes the tap, and says what the connection needs.
    pub fn begin(&mut self, now: Nanos, granted: bool) -> (u: Upkeep)
        requires
            old(self).frame < u64::MAX,
        ensures
            u.join == old(self).watchdog.joining(
                now as int,
                old(self).cockpit@.armed,
                old(self).pad.tap,
                granted,
            ),
            u.restart == old(self).watchdog.wants_restart(now as int, old(self).cockpit@.armed),
            final(self).frame == old(self).frame + 1,
            final(self).pad == (Pad { tap: false, ..old(self).pad }),
            final(self).watchdog == (Watchdog {
                last_frame: old(self).watchdog.last_frame,
                last_attempt: if u.restart {
                    Some(now)
                } else {
                    old(self).watchdog.last_attempt
                },
                warned: old(self).watchdog.warned || u.join == Join::Warn,
            }),
            final(self).bindings == old(self).bindings,
            final(self).cockpit@ == old(self).cockpit@,
            final(self).meter == old(self).meter,
    {
        self.frame = self.frame + 1;
        let armed = self.cockpit.armed();
        let tapped = self.pad.take_tap();
        let join = self.watchdog.join(now, armed, tapped, granted);
        let restart = self.watchdog.restart_due(now, armed);
        Upkeep { join, restart }
    }

    /// Takes an input event into account; returns whether the app consumes it.
    pub fn input(&mut self, event: PadEvent) -> (handled: bool)
        ensures
            handled == pad::consumed(event),
            *final(self) == (Session {
                pad: pad::after_event(old(self).pad, old(self).bindings.keys@, event),
                ..*old(self)
            }),
    {
        handle_input(event, &mut self.pad, &self.bindings)
    }

    /// Flies one cycle: what the link, if there is one, is to be told.
    pub fn fly(&mut self, linked: bool) -> (cmd: Command)
        ensures
            cmd == cockpit::command(old(self).cockpit@, old(self).pad, linked),
            final(self).cockpit@ == cockpit::next_flight(
                old(self).cockpit@,
                old(self).pad,
                linked,
            ),
            final(self).pad == cockpit::taken(old(self).pad),
            final(self).bindings == old(self).bindings,
            final(self).watchdog == old(self).watchdog,
            final(self).meter == old(self).meter,
            final(self).frame == old(self).frame,
    {
        self.cockpit.cycle(&mut self.pad, linked)
    }

    /// A video frame was shown.
    pub fn frame_shown(&mut self, now: Nanos)
        requires
            old(self).meter.count < u32::MAX,
        ensures
            *final(self) == (Session {
                watchdog: (Watchdog { last_frame: Some(now), ..old(self).watchdog }),
                meter: (FrameMeter {
                    count: (old(self).meter.count + 1) as u32,
                    ..old(self).meter
                }),
                ..*old(self)
            }),
    {
        self.watchdog.frame_shown(now);
        self.meter.frame();
    }

    /// Ends a cycle: what the display shows of the state that was flown.
    pub fn readings(&mut self, now: Nanos, cmd: &Command, throttle_fill: usize) -> (r: Readings)
        ensures
            *final(self) == (Session {
                meter: if net::elapsed(old(self).meter.since as int, now as int) >= net::SECOND {
                    FrameMeter { count: 0, shown: old(self).meter.count, since: now }
                } else {
                    old(self).meter
                },
                ..*old(self)
            }),
            r.armed == old(self).cockpit@.armed,
            r.connected == (old(self).watchdog.last_frame matches Some(t) && net::elapsed(
                t as int,
                now as int,
            ) < CONNECTED_FOR),
            r.fps == final(self).meter.shown,
            r.throttle == cmd.state.throttle,
            r.yaw == cmd.state.yaw,
            r.roll == cmd.state.roll,
            r.pitch == cmd.state.pitch,
            r.frame == old(self).frame,
            r.trim_roll == old(self).cockpit@.trim_roll,
            r.trim_pitch == old(self).cockpit@.trim_pitch,
            r.headless == old(self).cockpit@.headless,
            r.throttle_fill == throttle_fill,
            r == shown(
                old(self).cockpit@,
                old(self).watchdog,
                final(self).meter,
                old(self).frame,
                *cmd,
                throttle_fill,
                now as int,
            ),
    {
        self.meter.refresh(now);
        Readings {
            armed: self.cockpit.armed(),
            connected: self.watchdog.connected(now),
            fps: self.meter.shown,
            throttle: cmd.state.throttle,
            yaw: cmd.state.yaw,
            roll: cmd.state.roll,
            pitch: cmd.state.pitch,
            frame: self.frame,
            trim_roll: self.cockpit.trim_roll(),
            trim_pitch: self.cockpit.trim_pitch(),
            headless: self.cockpit.headless(),
            throttle_fill,
        }
    }
}

/// The display shows what was flown: the sticks of the command that went out, each under
/// its own name, the aircraft's own state and trims, and the link as of now.
pub proof fn display_shows_what_was_flown(
    flight: cockpit::Flight,
    watchdog: Watchdog,
    meter: FrameMeter,
    frame: u64,
    cmd: Command,
    fill: usize,
    now: int,
)
    requires
        -40 <= flight.trim_roll <= 40,
        -40 <= flight.trim_pitch <= 40,
    ensures
        ({
            let r = shown(flight, watchdog, meter, frame, cmd, fill, now);
            let packet = cmd.state.packet();
            &&& r.roll == packet[1]
            &&& r.pitch == packet[2]
            &&& r.throttle == packet[3]
            &&& r.yaw == packet[4]
            &&& r.armed == flight.armed
            &&& r.headless == flight.headless
            &&& r.trim_roll == flight.trim_roll
            &&& r.trim_pitch == flight.trim_pitch
            &&& r.fps == meter.shown
            &&& r.frame == frame
            &&& r.throttle_fill == fill
            &&& watchdog.last_frame is None ==> !r.connected
            &&& watchdog.last_frame matches Some(t) ==> r.connected == (now < t + 2_000_000_000)
        }),
{
}

} // verus!
