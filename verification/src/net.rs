//! Decisions of the UDP link to the drone.
//!
//! - Control: what the fixed-rate sender to `192.168.4.153:8090` transmits each
//!   cycle; the self-neutralizing failsafe is decided by [`command_packet`].
//! - Video: when to ask `:8080` for the MJPEG stream again.
//!
//! Times are nanoseconds on a clock that never runs backwards.

use crate::protocol;
use crate::protocol::{idle_keepalive, ControlState, CENTER, FLAG_LAND};
use vstd::prelude::*;

verus! {

/// A span of time, or a reading of the clock.
pub type Nanos = u128;

/// Units of time.
pub const MILLISECOND: Nanos = 1_000_000;

pub const SECOND: Nanos = 1_000_000_000;

/// Default drone address on its WiFi AP.
pub const DRONE_IP: [u8; 4] = [192, 168, 4, 153];

/// UDP ports for control packets and for video.
pub const CONTROL_PORT: u16 = 8090;

pub const VIDEO_PORT: u16 = 8080;

/// Two-byte request that starts the video stream (`'B' 0x76`).
pub const VIDEO_START: [u8; 2] = [0x42, 0x76];

/// How long without a control update before the sender forces the failsafe.
pub const STALE_AFTER: Nanos = 200_000_000;

/// Control send interval (~25 Hz).
pub const SEND_INTERVAL: Nanos = 40_000_000;

/// How long the video receiver waits for a datagram before it looks around.
pub const VIDEO_READ_TIMEOUT: Nanos = 200_000_000;

/// How often the video stream is requested again, as a keepalive.
pub const VIDEO_REQUEST_INTERVAL: Nanos = 1_000_000_000;

/// The failsafe packet: neutral sticks and the land flag.
pub open spec fn failsafe() -> Seq<u8> {
    protocol::hover(FLAG_LAND).packet()
}

/// The packet that the sender owes the drone.
pub open spec fn commanded(
    armed: bool,
    state: ControlState,
    since_update: int,
    stale_after: int,
) -> Seq<u8> {
    if !armed {
        protocol::idle_packet()
    } else if since_update >= stale_after {
        failsafe()
    } else {
        state.packet()
    }
}

/// The time from `then` to `now`: zero where `then` lies ahead.
pub open spec fn elapsed(then: int, now: int) -> int {
    if now > then {
        now - then
    } else {
        0
    }
}

/// The time from `then` to `now`: zero where `then` lies ahead.
pub fn elapsed_since(then: Nanos, now: Nanos) -> (d: Nanos)
    ensures
        d == elapsed(then as int, now as int),
{
    if now > then {
        now - then
    } else {
        0
    }
}

/// The packet sent when control input has gone stale (lost gamepad, dead input
/// thread, hung UI): neutral sticks and the one-key **land** flag for a controlled
/// descent.
pub fn failsafe_packet() -> (packet: [u8; 8])
    ensures
        packet@ == failsafe(),
{
    let s = ControlState {
        roll: CENTER,
        pitch: CENTER,
        throttle: CENTER,
        yaw: CENTER,
        flags: FLAG_LAND,
    };
    s.encode()
}

/// Decides which 8-byte packet the sender transmits this cycle.
///
/// - disarmed: idle keepalive (`0xAA…0x55`)
/// - armed and fresh input: the current control state
/// - armed and stale input (`since_update >= stale_after`): [`failsafe_packet`]
pub fn command_packet(
    armed: bool,
    state: ControlState,
    since_update: Nanos,
    stale_after: Nanos,
) -> (packet: [u8; 8])
    ensures
        packet@ == commanded(armed, state, since_update as int, stale_after as int),
{
    if !armed {
        return idle_keepalive();
    }
    if since_update >= stale_after {
        return failsafe_packet();
    }
    state.encode()
}

/// An IPv4 address and a UDP port.
#[derive(Clone, Copy, Debug, PartialEq, Eq)]
pub struct Endpoint {
    pub ip: [u8; 4],
    pub port: u16,
}

/// Addresses and timing of a link.
#[derive(Clone, Copy, Debug)]
pub struct LinkConfig {
    pub control_addr: Endpoint,
    pub video_addr: Endpoint,
    pub send_interval: Nanos,
    pub stale_after: Nanos,
}

impl Default for LinkConfig {
    /// The drone's own addresses at the default rates.
    fn default() -> (cfg: Self)
        ensures
            cfg.control_addr == (Endpoint { ip: DRONE_IP, port: CONTROL_PORT }),
            cfg.video_addr == (Endpoint { ip: DRONE_IP, port: VIDEO_PORT }),
            cfg.send_interval == SEND_INTERVAL,
            cfg.stale_after == STALE_AFTER,
    {
        LinkConfig {
            control_addr: Endpoint { ip: DRONE_IP, port: CONTROL_PORT },
            video_addr: Endpoint { ip: DRONE_IP, port: VIDEO_PORT },
            send_interval: SEND_INTERVAL,
            stale_after: STALE_AFTER,
        }
    }
}

/// What the sender knows: the state to transmit, whether active commands are
/// allowed, and when the input was last refreshed.
pub struct Controls {
    pub state: ControlState,
    pub armed: bool,
    pub updated: int,
}

/// The controls of a link that has just started.
pub open spec fn idle_controls(now: int) -> Controls {
    Controls { state: protocol::hover(0), armed: false, updated: now }
}

/// The controls after a new state.
pub open spec fn with_state(c: Controls, state: ControlState, now: int) -> Controls {
    Controls { state, updated: now, ..c }
}

/// The controls after arming.
pub open spec fn with_arm(c: Controls, now: int) -> Controls {
    Controls { armed: true, updated: now, ..c }
}

/// The controls after disarming.
pub open spec fn with_disarm(c: Controls) -> Controls {
    Controls { armed: false, ..c }
}

/// The packet that the sender transmits at `now`.
pub open spec fn sent(c: Controls, now: int, stale_after: int) -> Seq<u8> {
    commanded(c.armed, c.state, elapsed(c.updated, now), stale_after)
}

/// The control state of a link. Every update refreshes the freshness timestamp that the
/// sender's failsafe watches. There is one for each link: to share it between the input
/// side and the sender is up to the caller.
#[derive(Debug)]
pub struct ControlHandle {
    state: ControlState,
    armed: bool,
    updated: Nanos,
}

impl View for ControlHandle {
    type V = Controls;

    closed spec fn view(&self) -> Controls {
        Controls { state: self.state, armed: self.armed, updated: self.updated as int }
    }
}

impl ControlHandle {
    /// Neutral sticks, disarmed, fresh as of `now`.
    pub fn new(now: Nanos) -> (h: Self)
        ensures
            h@ == idle_controls(now as int),
    {
        ControlHandle { state: ControlState::neutral(), armed: false, updated: now }
    }

    /// Sets the stick and flag state to transmit and marks input as fresh.
    pub fn set(&mut self, state: ControlState, now: Nanos)
        ensures
            final(self)@ == with_state(old(self)@, state, now as int),
    {
        self.state = state;
        self.updated = now;
    }

    /// Arms (allows active commands). Also counts as a fresh input.
    pub fn arm(&mut self, now: Nanos)
        ensures
            final(self)@ == with_arm(old(self)@, now as int),
    {
        self.armed = true;
        self.updated = now;
    }

    /// Disarms: the sender reverts to the idle keepalive.
    pub fn disarm(&mut self)
        ensures
            final(self)@ == with_disarm(old(self)@),
    {
        self.armed = false;
    }

    /// The packet to transmit at `now`.
    pub fn packet(&self, now: Nanos, stale_after: Nanos) -> (packet: [u8; 8])
        ensures
            packet@ == sent(self@, now as int, stale_after as int),
    {
        command_packet(self.armed, self.state, elapsed_since(self.updated, now), stale_after)
    }
}

/// Something that is done again and again, such as requesting the video stream.
#[derive(Clone, Copy, Debug)]
pub struct Ticker {
    /// When it was last done.
    pub last: Nanos,
    pub every: Nanos,
}

impl Ticker {
    /// Done for the first time at `now`.
    pub fn new(now: Nanos, every: Nanos) -> (t: Self)
        ensures
            t == (Ticker { last: now, every }),
    {
        Ticker { last: now, every }
    }

    /// Whether it is to be done again at `now`.
    pub open spec fn is_due(self, now: int) -> bool {
        elapsed(self.last as int, now) >= self.every
    }

    /// The ticker after it was asked.
    pub open spec fn ticked(self, now: Nanos) -> Ticker {
        Ticker {
            last: if self.is_due(now as int) {
                now
            } else {
                self.last
            },
            ..self
        }
    }

    /// Whether it is to be done again at `now`; if so, the interval starts over.
    pub fn due(&mut self, now: Nanos) -> (b: bool)
        ensures
            b == (elapsed(old(self).last as int, now as int) >= old(self).every),
            *final(self) == (Ticker {
                last: if b {
                    now
                } else {
                    old(self).last
                },
                ..*old(self)
            }),
            b == old(self).is_due(now as int),
            *final(self) == old(self).ticked(now),
    {
        if elapsed_since(self.last, now) >= self.every {
            self.last = now;
            true
        } else {
            false
        }
    }
}

/// While disarmed, only the idle keepalive goes out, whatever the sticks say and
/// however old the input is.
pub proof fn disarmed_sends_only_idle(c: Controls, now: int, stale_after: int)
    requires
        !c.armed,
    ensures
        sent(c, now, stale_after) == protocol::idle_packet(),
{
}

/// Once the input is as old as the limit, an armed sender commands the landing
/// and nothing else: the last stick positions no longer matter.
pub proof fn stale_input_lands(c: Controls, now: int, stale_after: int)
    requires
        c.armed,
        elapsed(c.updated, now) >= stale_after,
    ensures
        sent(c, now, stale_after) == failsafe(),
        sent(c, now, stale_after)[5] == FLAG_LAND,
{
}

/// Input that stops being refreshed never becomes fresh again: a sender that has
/// fallen back to the failsafe stays there until the next update.
pub proof fn failsafe_holds_until_update(c: Controls, now: int, later: int, stale_after: int)
    requires
        c.armed,
        elapsed(c.updated, now) >= stale_after,
        now <= later,
    ensures
        sent(c, later, stale_after) == failsafe(),
{
}

/// An armed sender transmits a state that was just set, until the limit is reached.
pub proof fn fresh_input_is_sent(
    c: Controls,
    state: ControlState,
    at: int,
    now: int,
    stale_after: int,
)
    requires
        c.armed,
        elapsed(at, now) < stale_after,
    ensures
        sent(with_state(c, state, at), now, stale_after) == state.packet(),
{
}

/// Setting a state arms nothing: only [`ControlHandle::arm`] leads from idle to
/// active commands, and disarming leads back at once.
pub proof fn only_arming_activates(
    c: Controls,
    state: ControlState,
    at: int,
    now: int,
    stale_after: int,
)
    ensures
        with_state(c, state, at).armed == c.armed,
        !idle_controls(at).armed,
        sent(with_disarm(c), now, stale_after) == protocol::idle_packet(),
        elapsed(at, now) < stale_after ==> sent(with_arm(c, at), now, stale_after)
            == c.state.packet(),
{
}

/// Every packet has eight bytes, and its first byte tells an armed link from an
/// idle one.
pub proof fn packet_tells_mode(c: Controls, now: int, stale_after: int)
    ensures
        sent(c, now, stale_after).len() == 8,
        c.armed <==> sent(c, now, stale_after)[0] == protocol::HEADER,
        !c.armed <==> sent(c, now, stale_after)[0] == 0xAA,
{
}

/// Time passes from the earlier to the later reading, and never backwards.
pub proof fn elapsed_counts_forward(then: int, now: int)
    ensures
        then <= now ==> then + elapsed(then, now) == now,
        now <= then ==> elapsed(then, now) == 0,
{
}

/// What goes out at any moment, byte by byte: the idle keepalive while disarmed; while
/// armed the sticks and flags that were last set, for as long as they are younger than
/// the limit, and from then on centered sticks with the land bit alone.
pub proof fn sender_transmits(c: Controls, now: int, stale_after: int)
    requires
        c.updated <= now,
    ensures
        ({
            let p = sent(c, now, stale_after);
            let fresh = now < c.updated + stale_after;
            &&& p.len() == 8
            &&& !c.armed ==> p == seq![0xAAu8, 0x80, 0x80, 0x00, 0x80, 0x00, 0x80, 0x55]
            &&& c.armed ==> p[0] == 0x66 && p[7] == 0x99
            &&& c.armed && fresh ==> p[1] == c.state.roll && p[2] == c.state.pitch && p[3]
                == c.state.throttle && p[4] == c.state.yaw && p[5] == c.state.flags
            &&& c.armed && !fresh ==> p[1] == 0x80 && p[2] == 0x80 && p[3] == 0x80 && p[4] == 0x80
                && p[5] == 0x02
            &&& c.armed ==> {
                let x = p[1] ^ p[2] ^ p[3] ^ p[4] ^ p[5];
                p[6] == x || (x == 0x66 && p[6] == 0x67) || (x == 0x99 && p[6] == 0x9A)
            }
        }),
{
    protocol::idle_packet_layout();
}

/// What an update leaves behind: each one changes what it is for, arming and setting a
/// state make the input fresh, disarming does not, and a new link is disarmed with
/// centered sticks and no flags.
pub proof fn updates_change_their_own(c: Controls, state: ControlState, now: int)
    ensures
        ({
            let s = with_state(c, state, now);
            let a = with_arm(c, now);
            let d = with_disarm(c);
            let i = idle_controls(now);
            &&& s.state == state && s.armed == c.armed && s.updated == now
            &&& a.state == c.state && a.armed && a.updated == now
            &&& d.state == c.state && !d.armed && d.updated == c.updated
            &&& !i.armed && i.updated == now
            &&& i.state == (ControlState {
                roll: 0x80,
                pitch: 0x80,
                throttle: 0x80,
                yaw: 0x80,
                flags: 0,
            })
        }),
{
}

/// A ticker is due once its interval has passed since the last time, and then counts from
/// now on; asked earlier, it goes on counting.
pub proof fn ticker_keeps_its_interval(t: Ticker, now: Nanos)
    requires
        t.last <= now,
    ensures
        t.is_due(now as int) == (now >= t.last + t.every),
        now >= t.last + t.every ==> t.ticked(now).last == now,
        now < t.last + t.every ==> t.ticked(now).last == t.last,
        t.ticked(now).every == t.every,
{
}

/// Where the drone is, and when it is spoken to: the addresses and ports, the request that
/// starts the video, and the intervals, in nanoseconds.
pub proof fn drone_is_reached()
    ensures
        DRONE_IP@ == seq![192u8, 168, 4, 153],
        CONTROL_PORT == 8090 && VIDEO_PORT == 8080,
        VIDEO_START@ == seq![0x42u8, 0x76],
        STALE_AFTER == 200_000_000,
        SEND_INTERVAL == 40_000_000,
        VIDEO_READ_TIMEOUT == 200_000_000,
        VIDEO_REQUEST_INTERVAL == 1_000_000_000,
        MILLISECOND == 1_000_000 && SECOND == 1_000 * MILLISECOND,
{
    assert(DRONE_IP@ =~= seq![192u8, 168, 4, 153]);
    assert(VIDEO_START@ =~= seq![0x42u8, 0x76]);
}

} // verus!
