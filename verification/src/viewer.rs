//! The desktop viewer's decisions: from keyboard and gamepad to what the drone is
//! told, the status border and the status line.

use crate::cockpit;
use crate::cockpit::{flag_byte, Command};
use crate::hud::Canvas;
use crate::net;
use crate::net::{Controls, Nanos};
use crate::protocol;
use crate::protocol::{ControlState, CENTER, FLAG_EMERGENCY};
use crate::raster;
use crate::raster::{Paint, Picture};
use crate::text;
use crate::text::{push_filled, push_hex, push_number};
use crate::video::{VIDEO_H, VIDEO_W};
use vstd::prelude::*;
use vstd::string::StringExecFns;

verus! {

/// Keyboard axis deflection from center when a key is held.
pub const KEY_STEP: i32 = 64;

/// How often the status line is printed.
pub const STATUS_INTERVAL: Nanos = 500_000_000;

/// Colors of the status border.
pub const BORDER_ARMED: u32 = 0x0000_FF00;

pub const BORDER_DISARMED: u32 = 0x00FF_0000;

/// `delta` from the center (positive = up), held inside 0..=255.
pub open spec fn offset_by(delta: int) -> int {
    if CENTER + delta < 0 {
        0
    } else if CENTER + delta > 255 {
        255
    } else {
        CENTER + delta
    }
}

/// Saturating offset from center by `delta` (positive = up).
pub fn offset(delta: i32) -> (v: u8)
    ensures
        v == offset_by(delta as int),
{
    let center: i32 = CENTER as i32;
    if delta < -center {
        0
    } else if delta > 255 - center {
        255
    } else {
        (center + delta) as u8
    }
}

/// The keyboard: keys that were just pressed, and keys that are held.
#[derive(Clone, Copy, Debug, PartialEq, Eq, Structural)]
pub struct Keys {
    pub enter_pressed: bool,
    pub h_pressed: bool,
    pub w: bool,
    pub s: bool,
    pub a: bool,
    pub d: bool,
    pub up: bool,
    pub down: bool,
    pub left: bool,
    pub right: bool,
    pub t: bool,
    pub g: bool,
    pub c: bool,
    pub f: bool,
    pub space: bool,
}

/// A gamepad: the axes that are pushed past the dead zone, and held buttons.
#[derive(Clone, Copy, Debug, PartialEq, Eq, Structural)]
pub struct Gamepad {
    pub throttle: Option<u8>,
    pub yaw: Option<u8>,
    pub roll: Option<u8>,
    pub pitch: Option<u8>,
    pub south: bool,
    pub east: bool,
    pub north: bool,
    pub start: bool,
    pub select: bool,
}

/// A gamepad at rest.
pub open spec fn resting_gamepad() -> Gamepad {
    Gamepad {
        throttle: None,
        yaw: None,
        roll: None,
        pitch: None,
        south: false,
        east: false,
        north: false,
        start: false,
        select: false,
    }
}

impl Default for Gamepad {
    fn default() -> (g: Self)
        ensures
            g == resting_gamepad(),
    {
        Gamepad {
            throttle: None,
            yaw: None,
            roll: None,
            pitch: None,
            south: false,
            east: false,
            north: false,
            start: false,
            select: false,
        }
    }
}

/// An axis by two keys: the second one wins.
pub open spec fn key_axis(more: bool, less: bool) -> u8 {
    if less {
        offset_by(-KEY_STEP) as u8
    } else if more {
        offset_by(KEY_STEP as int) as u8
    } else {
        CENTER
    }
}

/// An axis: the gamepad overrides the keys.
pub open spec fn axis(keys: u8, pad: Option<u8>) -> u8 {
    match pad {
        Some(v) => v,
        None => keys,
    }
}

fn keyed(more: bool, less: bool) -> (v: u8)
    ensures
        v == key_axis(more, less),
{
    if less {
        offset(-KEY_STEP)
    } else if more {
        offset(KEY_STEP)
    } else {
        CENTER
    }
}

fn merged(keys: u8, pad: Option<u8>) -> (v: u8)
    ensures
        v == axis(keys, pad),
{
    match pad {
        Some(v) => v,
        None => keys,
    }
}

/// What the viewer remembers from one cycle to the next.
#[derive(Clone, Copy, Debug, PartialEq, Eq, Structural)]
pub struct Viewer {
    pub armed: bool,
    pub headless: bool,
    /// The gamepad's start button was held.
    pub start_held: bool,
}

/// What the window's title says.
#[derive(Clone, Copy, Debug, PartialEq, Eq, Structural)]
pub enum Title {
    Disarmed,
    Armed,
    Emergency,
}

impl Title {
    /// The title.
    pub open spec fn text(self) -> Seq<char> {
        match self {
            Title::Disarmed => "Skyraptor — DRCX5 [DISARMED]"@,
            Title::Armed => "Skyraptor — DRCX5 [ARMED]"@,
            Title::Emergency => "Skyraptor — DRCX5 [EMERGENCY]"@,
        }
    }

    /// The title.
    pub fn as_str(self) -> (s: &'static str)
        ensures
            s@ == self.text(),
    {
        match self {
            Title::Disarmed => "Skyraptor — DRCX5 [DISARMED]",
            Title::Armed => "Skyraptor — DRCX5 [ARMED]",
            Title::Emergency => "Skyraptor — DRCX5 [EMERGENCY]",
        }
    }
}

/// Whether arming is toggled: by Enter, or by the start button going down.
pub open spec fn toggles(v: Viewer, keys: Keys, pad: Gamepad) -> bool {
    keys.enter_pressed || (pad.start && !v.start_held)
}

/// Whether the emergency is held.
pub open spec fn emergency(keys: Keys, pad: Gamepad) -> bool {
    keys.space || pad.select
}

/// The control state of a cycle.
pub open spec fn steered(v: Viewer, keys: Keys, pad: Gamepad) -> ControlState {
    ControlState {
        roll: axis(key_axis(keys.right, keys.left), pad.roll),
        pitch: axis(key_axis(keys.up, keys.down), pad.pitch),
        throttle: axis(key_axis(keys.w, keys.s), pad.throttle),
        yaw: axis(key_axis(keys.d, keys.a), pad.yaw),
        flags: cockpit::flags_of(
            keys.t || pad.south,
            keys.g || pad.east,
            keys.f || pad.north,
            keys.c,
            v.headless != keys.h_pressed,
            emergency(keys, pad),
        ),
    }
}

/// What is remembered after a cycle: the toggle counts, then an emergency disarms.
pub open spec fn next_viewer(v: Viewer, keys: Keys, pad: Gamepad) -> Viewer {
    Viewer {
        armed: (v.armed != toggles(v, keys, pad)) && !emergency(keys, pad),
        headless: v.headless != keys.h_pressed,
        start_held: pad.start,
    }
}

/// What a cycle asks of the link.
pub open spec fn command(v: Viewer, keys: Keys, pad: Gamepad) -> Command {
    Command {
        state: steered(v, keys, pad),
        toggled: toggles(v, keys, pad),
        emergency: emergency(keys, pad),
        armed: next_viewer(v, keys, pad).armed,
    }
}

/// The title that a cycle sets, if it does.
pub open spec fn next_title(v: Viewer, keys: Keys, pad: Gamepad) -> Option<Title> {
    if emergency(keys, pad) {
        Some(Title::Emergency)
    } else if !toggles(v, keys, pad) {
        None
    } else if next_viewer(v, keys, pad).armed {
        Some(Title::Armed)
    } else {
        Some(Title::Disarmed)
    }
}

impl Viewer {
    /// Disarmed.
    pub fn new() -> (v: Self)
        ensures
            v == (Viewer { armed: false, headless: false, start_held: false }),
    {
        Viewer { armed: false, headless: false, start_held: false }
    }

    /// One cycle: what the link is to be told, and the new title if there is one.
    pub fn cycle(&mut self, keys: &Keys, pad: &Gamepad) -> (r: (Command, Option<Title>))
        ensures
            *final(self) == next_viewer(*old(self), *keys, *pad),
            r.0 == command(*old(self), *keys, *pad),
            r.1 == next_title(*old(self), *keys, *pad),
    {
        let toggled = keys.enter_pressed || (pad.start && !self.start_held);
        let cut = keys.space || pad.select;
        let headless = self.headless != keys.h_pressed;
        let armed = (self.armed != toggled) && !cut;
        let state = ControlState {
            roll: merged(keyed(keys.right, keys.left), pad.roll),
            pitch: merged(keyed(keys.up, keys.down), pad.pitch),
            throttle: merged(keyed(keys.w, keys.s), pad.throttle),
            yaw: merged(keyed(keys.d, keys.a), pad.yaw),
            flags: flag_byte(
                keys.t || pad.south,
                keys.g || pad.east,
                keys.f || pad.north,
                keys.c,
                headless,
                cut,
            ),
        };
        let title = if cut {
            Some(Title::Emergency)
        } else if !toggled {
            None
        } else if armed {
            Some(Title::Armed)
        } else {
            Some(Title::Disarmed)
        };
        *self = Viewer { armed, headless, start_held: pad.start };
        (Command { state, toggled, emergency: cut, armed }, title)
    }
}

/// The border of a picture in one color.
pub open spec fn border_paint(w: int, h: int, color: u32) -> Paint {
    |x: int, y: int, c: u32|
        if x == 0 || x == w - 1 || y == 0 || y == h - 1 {
            color
        } else {
            c
        }
}

/// The status border: green armed, red disarmed.
pub open spec fn with_border(frame: Seq<u32>, armed: bool) -> Seq<u32> {
    raster::drawn(
        Picture { w: VIDEO_W as nat, h: VIDEO_H as nat, px: frame },
        border_paint(
            VIDEO_W as int,
            VIDEO_H as int,
            if armed {
                BORDER_ARMED
            } else {
                BORDER_DISARMED
            },
        ),
    ).px
}

/// Draws the status border around a video frame.
pub fn draw_border(frame: &mut [u32], armed: bool)
    requires
        VIDEO_W * VIDEO_H <= old(frame).len(),
    ensures
        final(frame)@ == with_border(old(frame)@, armed),
{
    let color = if armed {
        BORDER_ARMED
    } else {
        BORDER_DISARMED
    };
    let mut c = Canvas { buf: frame, w: VIDEO_W, h: VIDEO_H };
    let ghost p = c@;
    c.hline(0, 0, VIDEO_W, color);
    c.hline(0, VIDEO_H - 1, VIDEO_W, color);
    c.vline(0, 0, VIDEO_H, color);
    c.vline(VIDEO_W - 1, 0, VIDEO_H, color);
    proof {
        let (w, h) = (VIDEO_W as int, VIDEO_H as int);
        let ink = raster::solid(color);
        raster::lemma_untouched(p, raster::untouched());
        raster::lemma_then_four(
            p,
            raster::untouched(),
            raster::area(0, 0, w, 1, ink),
            raster::area(0, h - 1, w, 1, ink),
            raster::area(0, 0, 1, h, ink),
            raster::area(w - 1, 0, 1, h, ink),
            border_paint(w, h, color),
        );
    }
}

/// A number in three columns.
pub open spec fn column(n: u8) -> Seq<char> {
    text::filled(' ', text::digits(n as nat), 3)
}

/// The status line.
pub open spec fn status_text(armed: bool, s: ControlState, fps: u32) -> Seq<char> {
    "["@ + (if armed {
        "ARMED"@
    } else {
        "disarmed"@
    }) + "] thr="@ + column(s.throttle) + " yaw="@ + column(s.yaw) + " roll="@ + column(s.roll)
        + " pitch="@ + column(s.pitch) + " flags="@ + text::hex(s.flags) + "  "@ + text::digits(
        fps as nat,
    ) + " fps"@
}

fn push_column(out: &mut String, n: u8)
    ensures
        final(out)@ == old(out)@ + column(n),
{
    proof {
        reveal_strlit(" ");
    }
    push_filled(out, n as u32, " ", 3);
}

/// The status line: arm state, sticks, flags and frame rate.
pub fn status_line(armed: bool, s: &ControlState, fps: u32) -> (line: String)
    ensures
        line@ == status_text(armed, *s, fps),
{
    let mut line = "[".to_owned();
    line.append(
        if armed {
            "ARMED"
        } else {
            "disarmed"
        },
    );
    line.append("] thr=");
    push_column(&mut line, s.throttle);
    line.append(" yaw=");
    push_column(&mut line, s.yaw);
    line.append(" roll=");
    push_column(&mut line, s.roll);
    line.append(" pitch=");
    push_column(&mut line, s.pitch);
    line.append(" flags=");
    push_hex(&mut line, s.flags);
    line.append("  ");
    push_number(&mut line, fps);
    line.append(" fps");
    line
}

/// Nothing arms the drone but Enter or the start button, and neither does so while an
/// emergency is held.
pub proof fn only_a_toggle_arms(v: Viewer, keys: Keys, pad: Gamepad)
    ensures
        next_viewer(v, keys, pad).armed && !v.armed ==> toggles(v, keys, pad),
        emergency(keys, pad) ==> !next_viewer(v, keys, pad).armed,
{
}

/// Holding the start button toggles once.
pub proof fn start_toggles_once(v: Viewer, keys: Keys, pad: Gamepad, later: Keys)
    requires
        pad.start,
        !later.enter_pressed,
    ensures
        !toggles(next_viewer(v, keys, pad), later, pad),
{
}

/// An emergency disarms and is transmitted at once, whatever else is pressed.
pub proof fn emergency_is_transmitted(
    v: Viewer,
    keys: Keys,
    pad: Gamepad,
    c: Controls,
    now: int,
    stale_after: int,
)
    requires
        emergency(keys, pad),
        stale_after > 0,
    ensures
        !next_viewer(v, keys, pad).armed,
        net::sent(cockpit::commanded(c, command(v, keys, pad), now), now, stale_after) == steered(
            v,
            keys,
            pad,
        ).packet(),
        steered(v, keys, pad).flags & FLAG_EMERGENCY != 0,
{
    cockpit::flags_are_independent(
        keys.t || pad.south,
        keys.g || pad.east,
        keys.f || pad.north,
        keys.c,
        v.headless != keys.h_pressed,
        emergency(keys, pad),
    );
}

/// After every cycle without an emergency the link is armed if the viewer is, provided
/// that it was armed before if the viewer was.
pub proof fn link_follows_viewer(v: Viewer, keys: Keys, pad: Gamepad, c: Controls, now: int)
    requires
        v.armed ==> c.armed,
        !emergency(keys, pad),
    ensures
        cockpit::commanded(c, command(v, keys, pad), now).armed == next_viewer(
            v,
            keys,
            pad,
        ).armed,
{
}

/// Without keys or gamepad the sticks are centered: the drone hovers.
pub proof fn hands_off_hovers(v: Viewer, keys: Keys)
    requires
        !keys.w && !keys.s && !keys.a && !keys.d,
        !keys.up && !keys.down && !keys.left && !keys.right,
    ensures
        ({
            let s = steered(v, keys, resting_gamepad());
            s == ControlState { flags: s.flags, ..protocol::hover(0) }
        }),
{
}

/// Where the gamepad leaves an axis alone, that axis depends on its own two keys and on
/// nothing else: 64 with the lower key, else 192 with the upper one, else 128.
pub proof fn keys_steer_their_own_axis(v: Viewer, keys: Keys, pad: Gamepad)
    ensures
        ({
            let s = command(v, keys, pad).state;
            &&& pad.pitch is None && keys.down ==> s.pitch == 64
            &&& pad.pitch is None && !keys.down && keys.up ==> s.pitch == 192
            &&& pad.pitch is None && !keys.down && !keys.up ==> s.pitch == 128
            &&& pad.roll is None && keys.left ==> s.roll == 64
            &&& pad.roll is None && !keys.left && keys.right ==> s.roll == 192
            &&& pad.roll is None && !keys.left && !keys.right ==> s.roll == 128
            &&& pad.throttle is None && keys.s ==> s.throttle == 64
            &&& pad.throttle is None && !keys.s && keys.w ==> s.throttle == 192
            &&& pad.throttle is None && !keys.s && !keys.w ==> s.throttle == 128
            &&& pad.yaw is None && keys.a ==> s.yaw == 64
            &&& pad.yaw is None && !keys.a && keys.d ==> s.yaw == 192
            &&& pad.yaw is None && !keys.a && !keys.d ==> s.yaw == 128
        }),
{
}

/// An axis that is pushed on the gamepad is flown as it is, whatever keys are held.
pub proof fn gamepad_overrides_keys(v: Viewer, keys: Keys, pad: Gamepad)
    ensures
        ({
            let s = command(v, keys, pad).state;
            &&& pad.roll is Some ==> pad.roll == Some(s.roll)
            &&& pad.pitch is Some ==> pad.pitch == Some(s.pitch)
            &&& pad.throttle is Some ==> pad.throttle == Some(s.throttle)
            &&& pad.yaw is Some ==> pad.yaw == Some(s.yaw)
        }),
{
}

/// Each flag has its own key and button: T or South takes off, G or East lands, F or
/// North flips, C calibrates, Space or Select cuts the motors, and H toggles headless
/// mode. No other bit is ever set.
pub proof fn keys_set_their_own_flag(v: Viewer, keys: Keys, pad: Gamepad)
    ensures
        ({
            let flags = command(v, keys, pad).state.flags;
            &&& (flags & 0x01 != 0) == (keys.t || pad.south)
            &&& (flags & 0x02 != 0) == (keys.g || pad.east)
            &&& (flags & 0x04 != 0) == (keys.space || pad.select)
            &&& (flags & 0x08 != 0) == (keys.f || pad.north)
            &&& (flags & 0x10 != 0) == next_viewer(v, keys, pad).headless
            &&& (flags & 0x80 != 0) == keys.c
            &&& flags & 0x60 == 0
            &&& next_viewer(v, keys, pad).headless == (v.headless != keys.h_pressed)
        }),
{
    cockpit::flags_are_independent(
        keys.t || pad.south,
        keys.g || pad.east,
        keys.f || pad.north,
        keys.c,
        v.headless != keys.h_pressed,
        emergency(keys, pad),
    );
    cockpit::flags_leave_two_bits(
        keys.t || pad.south,
        keys.g || pad.east,
        keys.f || pad.north,
        keys.c,
        v.headless != keys.h_pressed,
        emergency(keys, pad),
    );
}

/// When the viewer is armed after a cycle: Enter, or the start button as it goes down,
/// turns it round, and an emergency disarms whatever else is pressed. The title says
/// what it came to, where anything was pressed.
pub proof fn viewer_arms_by_its_buttons(v: Viewer, keys: Keys, pad: Gamepad)
    ensures
        ({
            let next = next_viewer(v, keys, pad);
            let cmd = command(v, keys, pad);
            let pressed = keys.enter_pressed || (pad.start && !v.start_held);
            let cut = keys.space || pad.select;
            &&& cut ==> !next.armed
            &&& !cut && pressed ==> next.armed == !v.armed
            &&& !cut && !pressed ==> next.armed == v.armed
            &&& next.start_held == pad.start
            &&& cmd.armed == next.armed
            &&& cmd.toggled == pressed
            &&& cmd.emergency == cut
            &&& cut ==> next_title(v, keys, pad) == Some(Title::Emergency)
            &&& !cut && pressed && next.armed ==> next_title(v, keys, pad) == Some(Title::Armed)
            &&& !cut && pressed && !next.armed ==> next_title(v, keys, pad) == Some(Title::Disarmed)
            &&& !cut && !pressed ==> next_title(v, keys, pad) is None
        }),
{
}

/// An offset from the center is the byte next to 128 plus the offset: no byte is nearer.
pub proof fn offset_is_nearest_byte(delta: int, other: int)
    requires
        0 <= other <= 255,
    ensures
        0 <= offset_by(delta) <= 255,
        protocol::distance(offset_by(delta), 128 + delta) <= protocol::distance(
            other,
            128 + delta,
        ),
        protocol::distance(other, 128 + delta) == protocol::distance(offset_by(delta), 128 + delta)
            ==> other == offset_by(delta),
        0 <= 128 + delta <= 255 ==> offset_by(delta) == 128 + delta,
{
}

/// The border covers the outermost pixel on all four sides of the frame, green while
/// armed and red while not, and nothing inside.
pub proof fn border_surrounds_the_frame(frame: Seq<u32>, armed: bool, x: int, y: int)
    requires
        240 * 320 <= frame.len(),
        0 <= x < 240,
        0 <= y < 320,
    ensures
        with_border(frame, armed).len() == frame.len(),
        with_border(frame, armed)[y * 240 + x] == if 1 <= x <= 238 && 1 <= y <= 318 {
            frame[y * 240 + x]
        } else if armed {
            0x0000_FF00
        } else {
            0x00FF_0000
        },
{
    let p = Picture { w: 240, h: 320, px: frame };
    raster::drawn_pixel(
        p,
        border_paint(
            240,
            320,
            if armed {
                BORDER_ARMED
            } else {
                BORDER_DISARMED
            },
        ),
        x,
        y,
    );
}

proof fn lemma_column(n: u8)
    ensures
        column(n).len() == 3,
{
    text::byte_digits_are_few(n);
}

/// What the status line says, place by place: the arm state, then throttle, yaw, roll and
/// pitch in three columns each, the flags in hexadecimal, and the frame rate.
pub proof fn status_line_reads(armed: bool, s: ControlState, fps: u32)
    ensures
        ({
            let t = status_text(armed, s, fps);
            let k = if armed {
                0int
            } else {
                3
            };
            let three = |n: u8| text::filled(' ', text::digits(n as nat), 3);
            &&& armed ==> t.take(7) == seq!['[', 'A', 'R', 'M', 'E', 'D', ']']
            &&& !armed ==> t.take(10) == seq!['[', 'd', 'i', 's', 'a', 'r', 'm', 'e', 'd', ']']
            &&& t.subrange(k + 7, k + 12) == seq![' ', 't', 'h', 'r', '=']
            &&& t.subrange(k + 12, k + 15) == three(s.throttle)
            &&& t.subrange(k + 15, k + 20) == seq![' ', 'y', 'a', 'w', '=']
            &&& t.subrange(k + 20, k + 23) == three(s.yaw)
            &&& t.subrange(k + 23, k + 29) == seq![' ', 'r', 'o', 'l', 'l', '=']
            &&& t.subrange(k + 29, k + 32) == three(s.roll)
            &&& t.subrange(k + 32, k + 39) == seq![' ', 'p', 'i', 't', 'c', 'h', '=']
            &&& t.subrange(k + 39, k + 42) == three(s.pitch)
            &&& t.subrange(k + 42, k + 49) == seq![' ', 'f', 'l', 'a', 'g', 's', '=']
            &&& t.subrange(k + 49, k + 51) == text::hex(s.flags)
            &&& t.subrange(k + 51, k + 53) == seq![' ', ' ']
            &&& t.subrange(k + 53, t.len() - 4) == text::digits(fps as nat)
            &&& t.skip(t.len() - 4) == seq![' ', 'f', 'p', 's']
        }),
{
    reveal_strlit("[");
    reveal_strlit("ARMED");
    reveal_strlit("disarmed");
    reveal_strlit("] thr=");
    reveal_strlit(" yaw=");
    reveal_strlit(" roll=");
    reveal_strlit(" pitch=");
    reveal_strlit(" flags=");
    reveal_strlit("  ");
    reveal_strlit(" fps");
    lemma_column(s.throttle);
    lemma_column(s.yaw);
    lemma_column(s.roll);
    lemma_column(s.pitch);
    let t = status_text(armed, s, fps);
    let k = if armed {
        0int
    } else {
        3
    };
    if armed {
        assert(t.take(7) =~= seq!['[', 'A', 'R', 'M', 'E', 'D', ']']);
    } else {
        assert(t.take(10) =~= seq!['[', 'd', 'i', 's', 'a', 'r', 'm', 'e', 'd', ']']);
    }
    assert(t.subrange(k + 7, k + 12) =~= seq![' ', 't', 'h', 'r', '=']);
    assert(t.subrange(k + 12, k + 15) =~= column(s.throttle));
    assert(t.subrange(k + 15, k + 20) =~= seq![' ', 'y', 'a', 'w', '=']);
    assert(t.subrange(k + 20, k + 23) =~= column(s.yaw));
    assert(t.subrange(k + 23, k + 29) =~= seq![' ', 'r', 'o', 'l', 'l', '=']);
    assert(t.subrange(k + 29, k + 32) =~= column(s.roll));
    assert(t.subrange(k + 32, k + 39) =~= seq![' ', 'p', 'i', 't', 'c', 'h', '=']);
    assert(t.subrange(k + 39, k + 42) =~= column(s.pitch));
    assert(t.subrange(k + 42, k + 49) =~= seq![' ', 'f', 'l', 'a', 'g', 's', '=']);
    assert(t.subrange(k + 49, k + 51) =~= text::hex(s.flags));
    assert(t.subrange(k + 51, k + 53) =~= seq![' ', ' ']);
    assert(t.subrange(k + 53, t.len() - 4) =~= text::digits(fps as nat));
    assert(t.skip(t.len() - 4) =~= seq![' ', 'f', 'p', 's']);
}

/// Every title ends in what it says of the drone, in brackets.
pub proof fn titles_say_the_state()
    ensures
        Title::Armed.text().skip(18) == seq!['[', 'A', 'R', 'M', 'E', 'D', ']'],
        Title::Disarmed.text().skip(18) == seq![
            '[',
            'D',
            'I',
            'S',
            'A',
            'R',
            'M',
            'E',
            'D',
            ']',
        ],
        Title::Emergency.text().skip(18) == seq![
            '[',
            'E',
            'M',
            'E',
            'R',
            'G',
            'E',
            'N',
            'C',
            'Y',
            ']',
        ],
{
    reveal_strlit("Skyraptor — DRCX5 [DISARMED]");
    reveal_strlit("Skyraptor — DRCX5 [ARMED]");
    reveal_strlit("Skyraptor — DRCX5 [EMERGENCY]");
    assert(Title::Armed.text().skip(18) =~= seq!['[', 'A', 'R', 'M', 'E', 'D', ']']);
    assert(Title::Disarmed.text().skip(18) =~= seq![
        '[',
        'D',
        'I',
        'S',
        'A',
        'R',
        'M',
        'E',
        'D',
        ']',
    ]);
    assert(Title::Emergency.text().skip(18) =~= seq![
        '[',
        'E',
        'M',
        'E',
        'R',
        'G',
        'E',
        'N',
        'C',
        'Y',
        ']',
    ]);
}

} // verus!
