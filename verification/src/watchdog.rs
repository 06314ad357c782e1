//! The state of the connection: when the link is started over, when the drone's WiFi
//! is asked for, and how many frames arrive.

use crate::net;
use crate::net::{elapsed_since, Nanos, SECOND};
use vstd::prelude::*;

verus! {

/// Without video for longer than this the link counts as lost.
pub const SIGNAL_LOST_AFTER: Nanos = 3_000_000_000;

/// Pause between two attempts to start the link over.
pub const RETRY_AFTER: Nanos = 2_000_000_000;

/// The display shows the link as connected for this long after a frame.
pub const CONNECTED_FOR: Nanos = 2_000_000_000;

/// Whether more than `limit` has passed since `then`, or `then` never was.
pub open spec fn longer_ago(then: Option<Nanos>, now: int, limit: int) -> bool {
    match then {
        Some(t) => net::elapsed(t as int, now) > limit,
        None => true,
    }
}

fn is_longer_ago(then: Option<Nanos>, now: Nanos, limit: Nanos) -> (b: bool)
    ensures
        b == longer_ago(then, now as int, limit as int),
{
    match then {
        Some(t) => elapsed_since(t, now) > limit,
        None => true,
    }
}

/// What a tap on the feed leads to.
#[derive(Clone, Copy, Debug, PartialEq, Eq, Structural)]
pub enum Join {
    Nothing,
    /// Ask the system to join the drone's WiFi.
    Request,
    /// The permission to look for WiFi networks is missing.
    Warn,
}

/// Connection watchdog: starts the link over when no video arrives, and lets a tap
/// ask for the drone's WiFi.
#[derive(Clone, Copy, Debug)]
pub struct Watchdog {
    /// When the last frame was shown.
    pub last_frame: Option<Nanos>,
    /// When the link was last started over.
    pub last_attempt: Option<Nanos>,
    /// The missing permission was reported.
    pub warned: bool,
}

impl Watchdog {
    /// No frame and no attempt yet.
    pub fn new() -> (w: Self)
        ensures
            w.last_frame is None,
            w.last_attempt is None,
            !w.warned,
    {
        Watchdog { last_frame: None, last_attempt: None, warned: false }
    }

    /// Whether no video has arrived for too long.
    pub open spec fn lost(self, now: int) -> bool {
        longer_ago(self.last_frame, now, SIGNAL_LOST_AFTER as int)
    }

    /// Whether the link is to be started over: no video, not too soon after the last
    /// attempt, and never while armed.
    pub open spec fn wants_restart(self, now: int, armed: bool) -> bool {
        &&& !armed
        &&& self.lost(now)
        &&& longer_ago(self.last_attempt, now, RETRY_AFTER as int)
    }

    /// What a tap leads to: only without video, and never while armed.
    pub open spec fn joining(self, now: int, armed: bool, tapped: bool, granted: bool) -> Join {
        if !tapped || armed || !self.lost(now) {
            Join::Nothing
        } else if granted {
            Join::Request
        } else if !self.warned {
            Join::Warn
        } else {
            Join::Nothing
        }
    }

    /// Whether the display shows the link as connected.
    pub open spec fn is_connected(self, now: int) -> bool {
        self.last_frame matches Some(t) && net::elapsed(t as int, now) < CONNECTED_FOR
    }

    /// The watchdog after a frame.
    pub open spec fn with_frame(self, now: Nanos) -> Watchdog {
        Watchdog { last_frame: Some(now), ..self }
    }

    /// The watchdog after it was asked about the link.
    pub open spec fn after_restart(self, now: Nanos, armed: bool) -> Watchdog {
        Watchdog {
            last_attempt: if self.wants_restart(now as int, armed) {
                Some(now)
            } else {
                self.last_attempt
            },
            ..self
        }
    }

    /// The watchdog after it was asked about a tap.
    pub open spec fn after_join(
        self,
        now: int,
        armed: bool,
        tapped: bool,
        granted: bool,
    ) -> Watchdog {
        Watchdog {
            warned: self.warned || self.joining(now, armed, tapped, granted) == Join::Warn,
            ..self
        }
    }

    /// A frame was shown.
    pub fn frame_shown(&mut self, now: Nanos)
        ensures
            *final(self) == (Watchdog { last_frame: Some(now), ..*old(self) }),
            *final(self) == old(self).with_frame(now),
    {
        self.last_frame = Some(now);
    }

    /// Whether the link is to be started over now; if so, the attempt is noted.
    pub fn restart_due(&mut self, now: Nanos, armed: bool) -> (b: bool)
        ensures
            b == old(self).wants_restart(now as int, armed),
            *final(self) == (Watchdog {
                last_attempt: if b {
                    Some(now)
                } else {
                    old(self).last_attempt
                },
                ..*old(self)
            }),
            *final(self) == old(self).after_restart(now, armed),
    {
        let due = !armed && is_longer_ago(self.last_frame, now, SIGNAL_LOST_AFTER)
            && is_longer_ago(self.last_attempt, now, RETRY_AFTER);
        if due {
            self.last_attempt = Some(now);
        }
        due
    }

    /// What to do about a tap; a missing permission is reported once.
    pub fn join(&mut self, now: Nanos, armed: bool, tapped: bool, granted: bool) -> (j: Join)
        ensures
            j == old(self).joining(now as int, armed, tapped, granted),
            *final(self) == (Watchdog {
                warned: old(self).warned || j == Join::Warn,
                ..*old(self)
            }),
            *final(self) == old(self).after_join(now as int, armed, tapped, granted),
    {
        if !tapped || armed || !is_longer_ago(self.last_frame, now, SIGNAL_LOST_AFTER) {
            Join::Nothing
        } else if granted {
            Join::Request
        } else if !self.warned {
            self.warned = true;
            Join::Warn
        } else {
            Join::Nothing
        }
    }

    /// Whether the display shows the link as connected.
    pub fn connected(&self, now: Nanos) -> (b: bool)
        ensures
            b == (self.last_frame matches Some(t) && net::elapsed(t as int, now as int)
                < CONNECTED_FOR),
            b == self.is_connected(now as int),
    {
        match self.last_frame {
            Some(t) => elapsed_since(t, now) < CONNECTED_FOR,
            None => false,
        }
    }
}

/// Counts frames, and shows the count of the last full second.
#[derive(Clone, Copy, Debug)]
pub struct FrameMeter {
    pub count: u32,
    pub shown: u32,
    pub since: Nanos,
}

impl FrameMeter {
    /// Nothing counted yet.
    pub fn new(now: Nanos) -> (m: Self)
        ensures
            m == (FrameMeter { count: 0, shown: 0, since: now }),
    {
        FrameMeter { count: 0, shown: 0, since: now }
    }

    /// The meter after one more frame.
    pub open spec fn counted(self) -> FrameMeter {
        FrameMeter { count: (self.count + 1) as u32, ..self }
    }

    /// The meter as of `now`.
    pub open spec fn refreshed(self, now: Nanos) -> FrameMeter {
        if net::elapsed(self.since as int, now as int) >= SECOND {
            FrameMeter { count: 0, shown: self.count, since: now }
        } else {
            self
        }
    }

    /// One more frame.
    pub fn frame(&mut self)
        requires
            old(self).count < u32::MAX,
        ensures
            *final(self) == (FrameMeter { count: (old(self).count + 1) as u32, ..*old(self) }),
            *final(self) == old(self).counted(),
    {
        self.count = self.count + 1;
    }

    /// After a second, shows the count and starts over.
    pub fn refresh(&mut self, now: Nanos)
        ensures
            *final(self) == if net::elapsed(old(self).since as int, now as int) >= SECOND {
                FrameMeter { count: 0, shown: old(self).count, since: now }
            } else {
                *old(self)
            },
            *final(self) == old(self).refreshed(now),
    {
        if elapsed_since(self.since, now) >= SECOND {
            self.shown = self.count;
            self.count = 0;
            self.since = now;
        }
    }
}

/// The watchdog never touches the link of an armed aircraft, nor one with video, and a
/// WiFi prompt never comes without a tap.
pub proof fn watchdog_leaves_flight_alone(
    w: Watchdog,
    now: int,
    armed: bool,
    tapped: bool,
    granted: bool,
)
    ensures
        w.wants_restart(now, armed) ==> !armed && w.lost(now),
        w.joining(now, armed, tapped, granted) == Join::Request ==> tapped && granted && !armed
            && w.lost(now),
{
}

/// Two attempts to start the link over lie more than the pause apart.
pub proof fn watchdog_pauses(w: Watchdog, at: Nanos, now: int, armed: bool)
    requires
        w.last_attempt == Some(at),
        w.wants_restart(now, armed),
    ensures
        now > at + RETRY_AFTER,
{
}

/// When the link is started over: exactly while disarmed, with no frame in the last three
/// seconds, and with no attempt in the last two.
pub proof fn watchdog_restarts(w: Watchdog, now: int, armed: bool)
    ensures
        w.wants_restart(now, armed) == (!armed && (w.last_frame matches Some(t) ==> now > t
            + 3_000_000_000) && (w.last_attempt matches Some(t) ==> now > t + 2_000_000_000)),
        w.lost(now) == (w.last_frame matches Some(t) ==> now > t + 3_000_000_000),
{
}

/// What a tap leads to: nothing while armed, or within three seconds of a frame; else the
/// request for the drone's WiFi, or, without the permission, one warning. Without a tap
/// nothing ever happens.
pub proof fn watchdog_joins_on_taps(
    w: Watchdog,
    now: int,
    armed: bool,
    tapped: bool,
    granted: bool,
)
    ensures
        ({
            let j = w.joining(now, armed, tapped, granted);
            let calls = tapped && !armed && (w.last_frame matches Some(t) ==> now > t
                + 3_000_000_000);
            &&& j == Join::Request <==> calls && granted
            &&& j == Join::Warn <==> calls && !granted && !w.warned
            &&& j == Join::Nothing <==> !calls || (!granted && w.warned)
        }),
{
}

/// The link counts as connected for two seconds after a frame, and never before the first.
pub proof fn connected_after_a_frame(w: Watchdog, now: int)
    ensures
        w.last_frame is None ==> !w.is_connected(now),
        w.last_frame matches Some(t) ==> w.is_connected(now) == (now < t + 2_000_000_000),
{
}

/// What the watchdog remembers: the time of the last frame, that of the last attempt, and
/// that it warned once; each changes by what it is for alone.
pub proof fn watchdog_remembers(
    w: Watchdog,
    now: Nanos,
    armed: bool,
    tapped: bool,
    granted: bool,
)
    ensures
        ({
            let f = w.with_frame(now);
            let r = w.after_restart(now, armed);
            let j = w.after_join(now as int, armed, tapped, granted);
            let warns = w.joining(now as int, armed, tapped, granted) == Join::Warn;
            &&& f.last_frame == Some(now) && f.last_attempt == w.last_attempt && f.warned == w.warned
            &&& r.last_frame == w.last_frame && r.warned == w.warned
            &&& w.wants_restart(now as int, armed) ==> r.last_attempt == Some(now)
            &&& !w.wants_restart(now as int, armed) ==> r.last_attempt == w.last_attempt
            &&& j.last_frame == w.last_frame && j.last_attempt == w.last_attempt
            &&& j.warned == (w.warned || warns)
        }),
{
}

/// The meter counts frame by frame, and, once a second has passed, shows what it counted
/// and starts over from zero; before that it shows what it showed.
pub proof fn meter_shows_the_last_second(m: FrameMeter, now: Nanos)
    ensures
        m.count < u32::MAX ==> m.counted().count == m.count + 1 && m.counted().shown == m.shown
            && m.counted().since == m.since,
        now >= m.since + 1_000_000_000 ==> m.refreshed(now).shown == m.count && m.refreshed(
            now,
        ).count == 0 && m.refreshed(now).since == now,
        now < m.since + 1_000_000_000 ==> m.refreshed(now) == m,
{
}

} // verus!
