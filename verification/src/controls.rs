//! How the local player's device inputs turn into game controls.
use vstd::prelude::*;
use crate::behavior::{Movement, PlayerActionState};

verus! {

/// The keys the controls react to.
#[derive(Clone, Copy, Debug, PartialEq, Eq, Structural)]
pub enum Key {
    W,
    S,
    T,
    Escape,
    Other,
}

/// A device input. Mouse motion carries the bits (as `f64::to_bits` gives them) of the
/// horizontal and vertical deltas; mouse buttons are numbered 1 for the left, 2 for the
/// middle and 3 for the right button.
#[derive(Clone, Copy, Debug, PartialEq, Eq, Structural)]
pub enum InputEvent {
    Key { key: Key, pressed: bool },
    MouseMotion { dx: u64, dy: u64 },
    Button { button: u32, pressed: bool },
    Other,
}

/// What the window must do after an input.
#[derive(Clone, Copy, Debug, PartialEq, Eq, Structural)]
pub enum InputEffect {
    Nothing,
    /// The player turned (in)visible: the transparency transition starts now, from the
    /// current transparency.
    StartVisibilityTransition,
    /// Grab (and hide) the cursor, or release (and show) it.
    SetCursorGrab(bool),
}

/// The local player's controls: movement, the last mouse deltas as pitch and roll (bits
/// of `f64`s), the action state, whether the mouse is captured and whether the player
/// is visible.
#[derive(Clone, Copy, Debug, PartialEq, Eq, Structural)]
pub struct PlayerControls {
    pub movement: Movement,
    pub pitch: u64,
    pub roll: u64,
    pub state: PlayerActionState,
    pub mouse_capture: bool,
    pub visible: bool,
}

/// The controls after `ev`, and what the window must do.
///
/// W pressed moves forward, S pressed backwards, either released stops; T pressed
/// toggles visibility; Escape pressed toggles the mouse capture. While the mouse is
/// captured, its motion sets the pitch (vertical delta) and roll (horizontal delta), the
/// left button pressed fires, and the right button fires the rope when pressed and cuts
/// it when released. Anything else changes nothing.
pub open spec fn after_input(c: PlayerControls, ev: InputEvent) -> (PlayerControls, InputEffect) {
    match ev {
        InputEvent::Key { key, pressed } => match (key, pressed) {
            (Key::W, true) => (PlayerControls { movement: Movement::Forward, ..c }, InputEffect::Nothing),
            (Key::W, false) | (Key::S, false) => (
                PlayerControls { movement: Movement::Stopped, ..c },
                InputEffect::Nothing,
            ),
            (Key::S, true) => (
                PlayerControls { movement: Movement::Backwards, ..c },
                InputEffect::Nothing,
            ),
            (Key::T, true) => (
                PlayerControls { visible: !c.visible, ..c },
                InputEffect::StartVisibilityTransition,
            ),
            (Key::Escape, true) => (
                PlayerControls { mouse_capture: !c.mouse_capture, ..c },
                InputEffect::SetCursorGrab(!c.mouse_capture),
            ),
            _ => (c, InputEffect::Nothing),
        },
        InputEvent::MouseMotion { dx, dy } => if c.mouse_capture {
            (PlayerControls { pitch: dy, roll: dx, ..c }, InputEffect::Nothing)
        } else {
            (c, InputEffect::Nothing)
        },
        InputEvent::Button { button, pressed } => if c.mouse_capture {
            if button == 1 && pressed {
                (PlayerControls { state: PlayerActionState::Fire, ..c }, InputEffect::Nothing)
            } else if button == 3 && pressed {
                (PlayerControls { state: PlayerActionState::FireRope, ..c }, InputEffect::Nothing)
            } else if button == 3 && !pressed {
                (PlayerControls { state: PlayerActionState::CutRope, ..c }, InputEffect::Nothing)
            } else {
                (c, InputEffect::Nothing)
            }
        } else {
            (c, InputEffect::Nothing)
        },
        InputEvent::Other => (c, InputEffect::Nothing),
    }
}

impl PlayerControls {
    /// Controls of a stopped, idle, visible player whose mouse is not captured.
    pub fn new() -> (res: PlayerControls)
        ensures
            res == (PlayerControls {
                movement: Movement::Stopped,
                pitch: 0,
                roll: 0,
                state: PlayerActionState::Idle,
                mouse_capture: false,
                visible: true,
            }),
    {
        PlayerControls {
            movement: Movement::Stopped,
            pitch: 0,
            roll: 0,
            state: PlayerActionState::Idle,
            mouse_capture: false,
            visible: true,
        }
    }

    /// Handles an input event from the window; returns what the window must do.
    pub fn on_input(&mut self, ev: InputEvent) -> (res: InputEffect)
        ensures
            (*final(self), res) == after_input(*old(self), ev),
    {
        match ev {
            InputEvent::Key { key, pressed } => match (key, pressed) {
                (Key::W, true) => {
                    self.movement = Movement::Forward;
                    InputEffect::Nothing
                },
                (Key::W, false) | (Key::S, false) => {
                    self.movement = Movement::Stopped;
                    InputEffect::Nothing
                },
                (Key::S, true) => {
                    self.movement = Movement::Backwards;
                    InputEffect::Nothing
                },
                (Key::T, true) => {
                    self.visible = !self.visible;
                    InputEffect::StartVisibilityTransition
                },
                (Key::Escape, true) => {
                    self.mouse_capture = !self.mouse_capture;
                    InputEffect::SetCursorGrab(self.mouse_capture)
                },
                _ => InputEffect::Nothing,
            },
            InputEvent::MouseMotion { dx, dy } => {
                if self.mouse_capture {
                    self.pitch = dy;
                    self.roll = dx;
                }
                InputEffect::Nothing
            },
            InputEvent::Button { button, pressed } => {
                if self.mouse_capture {
                    if button == 1 && pressed {
                        self.state = PlayerActionState::Fire;
                    } else if button == 3 && pressed {
                        self.state = PlayerActionState::FireRope;
                    } else if button == 3 && !pressed {
                        self.state = PlayerActionState::CutRope;
                    }
                }
                InputEffect::Nothing
            },
            InputEvent::Other => InputEffect::Nothing,
        }
    }

    /// How the player moves.
    pub fn get_movement(&self) -> (res: Movement)
        ensures
            res == self.movement,
    {
        self.movement
    }

    /// The last horizontal mouse delta (bits of an `f64`).
    pub fn get_roll(&self) -> (res: u64)
        ensures
            res == self.roll,
    {
        self.roll
    }

    /// The last vertical mouse delta (bits of an `f64`).
    pub fn get_pitch(&self) -> (res: u64)
        ensures
            res == self.pitch,
    {
        self.pitch
    }

    /// The player's action state.
    pub fn get_action_state(&self) -> (res: PlayerActionState)
        ensures
            res == self.state,
    {
        self.state
    }

    /// The action state was acted on: the player is idle again.
    pub fn transition_action_state(&mut self)
        ensures
            *final(self) == (PlayerControls { state: PlayerActionState::Idle, ..*old(self) }),
    {
        self.state = PlayerActionState::Idle;
    }

    /// After a frame the mouse deltas are used up: pitch and roll are zero again.
    pub fn on_frame_update(&mut self)
        ensures
            *final(self) == (PlayerControls { pitch: 0, roll: 0, ..*old(self) }),
    {
        self.pitch = 0;
        self.roll = 0;
    }

    /// The player died: it is idle and visible again.
    pub fn on_death(&mut self)
        ensures
            *final(self) == (PlayerControls {
                state: PlayerActionState::Idle,
                visible: true,
                ..*old(self)
            }),
    {
        self.state = PlayerActionState::Idle;
        self.visible = true;
    }
}

/// Pressing Escape twice leaves the mouse capture as it was, and so does pressing T twice
/// the visibility.
pub proof fn lemma_toggles_undo(c: PlayerControls)
    ensures
        after_input(
            after_input(c, InputEvent::Key { key: Key::Escape, pressed: true }).0,
            InputEvent::Key { key: Key::Escape, pressed: true },
        ).0 == c,
        after_input(
            after_input(c, InputEvent::Key { key: Key::T, pressed: true }).0,
            InputEvent::Key { key: Key::T, pressed: true },
        ).0 == c,
{
}

/// Without the mouse captured, mouse motion and buttons change nothing.
pub proof fn lemma_uncaptured_mouse_ignored(c: PlayerControls, ev: InputEvent)
    requires
        !c.mouse_capture,
        ev is MouseMotion || ev is Button,
    ensures
        after_input(c, ev) == (c, InputEffect::Nothing),
{
}

/// With the mouse captured, the mouse buttons set the action: a pressed left button
/// fires, a pressed right button fires the rope and a released right button cuts it; the
/// movement, the view, the capture and the visibility stay as they were, and the window
/// has nothing to do.
pub proof fn lemma_captured_buttons_act(c: PlayerControls, button: u32, pressed: bool)
    requires
        c.mouse_capture,
    ensures
        ({
            let (n, eff) = after_input(c, InputEvent::Button { button, pressed });
            &&& button == 1 && pressed ==> n.state == PlayerActionState::Fire
            &&& button == 3 && pressed ==> n.state == PlayerActionState::FireRope
            &&& button == 3 && !pressed ==> n.state == PlayerActionState::CutRope
            &&& !((button == 1 && pressed) || button == 3) ==> n.state == c.state
            &&& n.movement == c.movement && n.pitch == c.pitch && n.roll == c.roll
            &&& n.mouse_capture && n.visible == c.visible
            &&& eff == InputEffect::Nothing
        }),
{
}

/// With the mouse captured, its motion sets the pitch to the vertical and the roll to the
/// horizontal delta and changes nothing else.
pub proof fn lemma_captured_motion_steers(c: PlayerControls, dx: u64, dy: u64)
    requires
        c.mouse_capture,
    ensures
        after_input(c, InputEvent::MouseMotion { dx, dy }) == (
            PlayerControls { pitch: dy, roll: dx, ..c },
            InputEffect::Nothing,
        ),
{
}

/// W and S set the movement whatever the mouse does: W pressed moves forward, S pressed
/// backwards, and releasing either stops; the action, the view, the capture and the
/// visibility stay as they were.
pub proof fn lemma_keys_move(c: PlayerControls, key: Key, pressed: bool)
    requires
        key == Key::W || key == Key::S,
    ensures
        ({
            let (n, eff) = after_input(c, InputEvent::Key { key, pressed });
            &&& n.movement == (if !pressed {
                Movement::Stopped
            } else if key == Key::W {
                Movement::Forward
            } else {
                Movement::Backwards
            })
            &&& n.state == c.state && n.pitch == c.pitch && n.roll == c.roll
            &&& n.mouse_capture == c.mouse_capture && n.visible == c.visible
            &&& eff == InputEffect::Nothing
        }),
{
}

/// Escape pressed flips the mouse capture and tells the window to grab the cursor exactly
/// when the mouse is now captured; T pressed flips the visibility and starts the
/// transparency transition.
pub proof fn lemma_toggle_effects(c: PlayerControls)
    ensures
        after_input(c, InputEvent::Key { key: Key::Escape, pressed: true }).0.mouse_capture
            == !c.mouse_capture,
        after_input(c, InputEvent::Key { key: Key::Escape, pressed: true }).1
            == InputEffect::SetCursorGrab(!c.mouse_capture),
        after_input(c, InputEvent::Key { key: Key::T, pressed: true }).0.visible == !c.visible,
        after_input(c, InputEvent::Key { key: Key::T, pressed: true }).1
            == InputEffect::StartVisibilityTransition,
{
}

} // verus!
