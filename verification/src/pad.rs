//! The gamepad: from input events to stick positions and pressed buttons.

use crate::protocol::CENTER;
use crate::settings;
use crate::settings::{Action, Bindings, BUTTON_MODE};
use vstd::prelude::*;

verus! {

/// Class bits of an input source.
pub const SOURCE_CLASS_POINTER: u32 = 0x0000_0002;

pub const SOURCE_CLASS_JOYSTICK: u32 = 0x0000_0010;

/// One axis of the D-pad: past the threshold on one side or the other, between the
/// two, or no number at all.
#[derive(Clone, Copy, Debug, PartialEq, Eq, Structural)]
pub enum Hat {
    Negative,
    Rest,
    Positive,
    Undefined,
}

/// Stick positions, shaped to axis bytes, and the D-pad.
#[derive(Clone, Copy, Debug, PartialEq, Eq, Structural)]
pub struct Sticks {
    pub yaw: u8,
    /// Where the throttle is headed.
    pub throttle: u8,
    pub roll: u8,
    pub pitch: u8,
    /// Negative is left.
    pub hat_x: Hat,
    /// Negative is up.
    pub hat_y: Hat,
}

/// What the gamepad is doing: held buttons, and one-shot requests that stay until
/// they are taken.
#[derive(Clone, Copy, Debug, PartialEq, Eq, Structural)]
pub struct Pad {
    pub sticks: Sticks,
    pub arm_toggle: bool,
    pub emergency: bool,
    pub takeoff: bool,
    pub land: bool,
    pub flip: bool,
    pub calibrate: bool,
    pub headless_toggle: bool,
    pub trim_reset: bool,
    /// The screen was tapped.
    pub tap: bool,
}

/// An input event.
#[derive(Clone, Copy, Debug, PartialEq, Eq, Structural)]
pub enum PadEvent {
    /// An analog event: its source, whether it sets a finger down, and the sticks if it
    /// has a pointer to read them from.
    Motion { source: u32, touch: bool, sticks: Option<Sticks> },
    /// A button going down or up.
    Key { code: u32, down: bool, repeat: i32 },
    Other,
}

/// Centered sticks, D-pad at rest.
pub open spec fn centered() -> Sticks {
    Sticks {
        yaw: CENTER,
        throttle: CENTER,
        roll: CENTER,
        pitch: CENTER,
        hat_x: Hat::Rest,
        hat_y: Hat::Rest,
    }
}

/// A gamepad that nobody touches.
pub open spec fn idle_pad() -> Pad {
    Pad {
        sticks: centered(),
        arm_toggle: false,
        emergency: false,
        takeoff: false,
        land: false,
        flip: false,
        calibrate: false,
        headless_toggle: false,
        trim_reset: false,
        tap: false,
    }
}

impl Default for Pad {
    fn default() -> (p: Self)
        ensures
            p == idle_pad(),
    {
        Pad {
            sticks: Sticks {
                yaw: CENTER,
                throttle: CENTER,
                roll: CENTER,
                pitch: CENTER,
                hat_x: Hat::Rest,
                hat_y: Hat::Rest,
            },
            arm_toggle: false,
            emergency: false,
            takeoff: false,
            land: false,
            flip: false,
            calibrate: false,
            headless_toggle: false,
            trim_reset: false,
            tap: false,
        }
    }
}

impl Pad {
    /// Takes the tap, if there was one.
    pub fn take_tap(&mut self) -> (tapped: bool)
        ensures
            tapped == old(self).tap,
            *final(self) == (Pad { tap: false, ..*old(self) }),
    {
        let tapped = self.tap;
        self.tap = false;
        tapped
    }
}

/// Whether an event carries new stick positions.
pub open spec fn moves_sticks(event: PadEvent) -> bool {
    event matches PadEvent::Motion { source, touch, sticks } && source & SOURCE_CLASS_JOYSTICK != 0
        && sticks is Some
}

/// Whether the app consumes an event: stick motion, and every button (so that no
/// button closes the app).
pub open spec fn consumed(event: PadEvent) -> bool {
    moves_sticks(event) || event is Key
}

/// A held button follows its key.
pub open spec fn held(was: bool, bound: bool, down: bool) -> bool {
    if bound {
        down
    } else {
        was
    }
}

/// The pad after a button event. Toggles count once per press, not on repeats; the
/// mode button is an emergency whatever the bindings say.
pub open spec fn after_key(p: Pad, keys: Seq<u32>, code: u32, down: bool, repeat: i32) -> Pad {
    let pressed = down && repeat == 0;
    Pad {
        arm_toggle: p.arm_toggle || (pressed && code == keys[Action::Arm.place()]),
        emergency: held(
            p.emergency,
            code == keys[Action::Emergency.place()] || code == BUTTON_MODE,
            down,
        ),
        takeoff: held(p.takeoff, code == keys[Action::Takeoff.place()], down),
        land: held(p.land, code == keys[Action::Land.place()], down),
        flip: held(p.flip, code == keys[Action::Flip.place()], down),
        calibrate: held(p.calibrate, code == keys[Action::Calibrate.place()], down),
        headless_toggle: p.headless_toggle || (pressed && code == keys[Action::Headless.place()]),
        trim_reset: p.trim_reset || (pressed && code == keys[Action::TrimReset.place()]),
        ..p
    }
}

/// The pad after an event.
pub open spec fn after_event(p: Pad, keys: Seq<u32>, event: PadEvent) -> Pad {
    match event {
        PadEvent::Motion { source, touch, sticks } => if moves_sticks(event) {
            Pad { sticks: sticks->0, ..p }
        } else {
            Pad { tap: p.tap || (touch && source & SOURCE_CLASS_POINTER != 0), ..p }
        },
        PadEvent::Key { code, down, repeat } => after_key(p, keys, code, down, repeat),
        PadEvent::Other => p,
    }
}

fn hold(was: bool, bound: bool, down: bool) -> (b: bool)
    ensures
        b == held(was, bound, down),
{
    if bound {
        down
    } else {
        was
    }
}

/// Takes an event into account; returns whether the app consumes it.
pub fn handle_input(event: PadEvent, pad: &mut Pad, bindings: &Bindings) -> (handled: bool)
    ensures
        *final(pad) == after_event(*old(pad), bindings.keys@, event),
        handled == consumed(event),
{
    match event {
        PadEvent::Motion { source, touch, sticks } => {
            if source & SOURCE_CLASS_JOYSTICK != 0 {
                if let Some(s) = sticks {
                    pad.sticks = s;
                    return true;
                }
            }
            if touch && source & SOURCE_CLASS_POINTER != 0 {
                pad.tap = true;
            }
            false
        },
        PadEvent::Key { code, down, repeat } => {
            let pressed = down && repeat == 0;
            let was = *pad;
            *pad = Pad {
                sticks: was.sticks,
                arm_toggle: was.arm_toggle || (pressed && code == bindings.get(Action::Arm)),
                emergency: hold(
                    was.emergency,
                    code == bindings.get(Action::Emergency) || code == BUTTON_MODE,
                    down,
                ),
                takeoff: hold(was.takeoff, code == bindings.get(Action::Takeoff), down),
                land: hold(was.land, code == bindings.get(Action::Land), down),
                flip: hold(was.flip, code == bindings.get(Action::Flip), down),
                calibrate: hold(was.calibrate, code == bindings.get(Action::Calibrate), down),
                headless_toggle: was.headless_toggle || (pressed && code == bindings.get(
                    Action::Headless,
                )),
                trim_reset: was.trim_reset || (pressed && code == bindings.get(Action::TrimReset)),
                tap: was.tap,
            };
            true
        },
        PadEvent::Other => false,
    }
}

/// What every button does under the default bindings: Start arms, Select and Mode are
/// the emergency, A lands, B takes off, Y flips, X calibrates, L1 toggles headless, R1
/// resets the trim, and no other button does anything.
pub proof fn default_buttons(p: Pad, code: u32, down: bool, repeat: i32)
    ensures
        ({
            let keys = settings::default_keys();
            let q = after_key(p, keys, code, down, repeat);
            let pressed = down && repeat == 0;
            q == if code == 108 {
                Pad { arm_toggle: p.arm_toggle || pressed, ..p }
            } else if code == 109 || code == 110 {
                Pad { emergency: down, ..p }
            } else if code == 96 {
                Pad { land: down, ..p }
            } else if code == 97 {
                Pad { takeoff: down, ..p }
            } else if code == 100 {
                Pad { flip: down, ..p }
            } else if code == 99 {
                Pad { calibrate: down, ..p }
            } else if code == 102 {
                Pad { headless_toggle: p.headless_toggle || pressed, ..p }
            } else if code == 103 {
                Pad { trim_reset: p.trim_reset || pressed, ..p }
            } else {
                p
            }
        }),
{
}

/// However the buttons are bound, the mode button and the bound one cut the motors.
pub proof fn emergency_is_always_bound(p: Pad, keys: Seq<u32>, down: bool, repeat: i32)
    ensures
        after_key(p, keys, BUTTON_MODE, down, repeat).emergency == down,
        after_key(p, keys, keys[Action::Emergency.place()], down, repeat).emergency == down,
{
}

/// A button that is held down and repeats toggles nothing a second time.
pub proof fn repeats_toggle_nothing(p: Pad, keys: Seq<u32>, code: u32, repeat: i32)
    requires
        repeat != 0,
    ensures
        after_key(p, keys, code, true, repeat).arm_toggle == p.arm_toggle,
        after_key(p, keys, code, true, repeat).headless_toggle == p.headless_toggle,
        after_key(p, keys, code, true, repeat).trim_reset == p.trim_reset,
{
}

/// Every button is consumed, so that none can close the app.
pub proof fn buttons_are_consumed(event: PadEvent)
    requires
        event is Key,
    ensures
        consumed(event),
{
}

/// Buttons move no stick, and sticks press no button.
pub proof fn sticks_and_buttons_are_apart(p: Pad, keys: Seq<u32>, event: PadEvent)
    ensures
        !moves_sticks(event) ==> after_event(p, keys, event).sticks == p.sticks,
        moves_sticks(event) ==> after_event(p, keys, event) == (Pad {
            sticks: event->sticks->0,
            ..p
        }),
{
}

/// What the pad holds of an action: that its button is down, or that it was asked for.
pub open spec fn asks(p: Pad, a: Action) -> bool {
    match a {
        Action::Arm => p.arm_toggle,
        Action::Takeoff => p.takeoff,
        Action::Land => p.land,
        Action::Flip => p.flip,
        Action::Calibrate => p.calibrate,
        Action::Headless => p.headless_toggle,
        Action::Emergency => p.emergency,
        Action::TrimReset => p.trim_reset,
    }
}

/// Whether an action is asked for once per press; the others last as long as the button.
pub open spec fn is_request(a: Action) -> bool {
    a == Action::Arm || a == Action::Headless || a == Action::TrimReset
}

/// However the buttons are bound, a button does what it is bound to and nothing else: an
/// action that lasts follows its button, one that is asked for stays asked for from the
/// first press on, and an action whose button it is not stays as it was. (The mode button
/// is always the emergency.) No button moves a stick or taps the screen.
pub proof fn buttons_do_what_they_are_bound_to(
    p: Pad,
    keys: Seq<u32>,
    code: u32,
    down: bool,
    repeat: i32,
    a: Action,
)
    ensures
        ({
            let q = after_event(p, keys, PadEvent::Key { code, down, repeat });
            let own = code == keys[a.place()] || (a == Action::Emergency && code == 110);
            &&& own && !is_request(a) ==> asks(q, a) == down
            &&& own && is_request(a) ==> asks(q, a) == (asks(p, a) || (down && repeat == 0))
            &&& !own ==> asks(q, a) == asks(p, a)
            &&& q.sticks == p.sticks
            &&& q.tap == p.tap
        }),
{
}

/// What motion does: from a joystick with a pointer it sets the sticks and is consumed;
/// any other touch of a pointer is a tap, and is left to the system. Neither presses a
/// button. An event that is neither motion nor a button does nothing at all.
pub proof fn motion_moves_or_taps(
    p: Pad,
    keys: Seq<u32>,
    source: u32,
    touch: bool,
    sticks: Option<Sticks>,
    a: Action,
)
    ensures
        ({
            let event = PadEvent::Motion { source, touch, sticks };
            let q = after_event(p, keys, event);
            let moved = source & 0x10 != 0 && sticks is Some;
            &&& moved ==> sticks == Some(q.sticks) && q.tap == p.tap
            &&& !moved ==> q.sticks == p.sticks && q.tap == (p.tap || (touch && source & 0x02 != 0))
            &&& consumed(event) == moved
            &&& asks(q, a) == asks(p, a)
        }),
        after_event(p, keys, PadEvent::Other) == p,
        !consumed(PadEvent::Other),
        forall|code: u32, down: bool, repeat: i32|
            consumed(#[trigger] key_event(code, down, repeat)),
{
}

/// A button event.
pub open spec fn key_event(code: u32, down: bool, repeat: i32) -> PadEvent {
    PadEvent::Key { code, down, repeat }
}

/// A pad that nobody touches has centered sticks, and asks for nothing.
pub proof fn idle_pad_asks_for_nothing(a: Action)
    ensures
        !asks(idle_pad(), a),
        !idle_pad().tap,
        idle_pad().sticks == (Sticks {
            yaw: 0x80,
            throttle: 0x80,
            roll: 0x80,
            pitch: 0x80,
            hat_x: Hat::Rest,
            hat_y: Hat::Rest,
        }),
{
}

} // verus!
