//! What the display loop does next.

use vstd::prelude::*;

verus! {

/// How often the display is redrawn, per second.
pub const UI_FPS: u64 = 30;

/// The time from one redraw to the next, in whole milliseconds.
pub const UI_TICK_MILLIS: u64 = 1_000 / UI_FPS;

/// A key, as far as the display cares.
#[derive(Clone, Copy, Debug, PartialEq, Eq, Structural)]
pub enum Key {
    /// A key that stands for a character.
    Char(char),
    /// The escape key.
    Esc,
    /// Any other key.
    Other,
}

/// What happened to a key.
#[derive(Clone, Copy, Debug, PartialEq, Eq, Structural)]
pub struct KeyInput {
    /// The key.
    pub key: Key,
    /// Whether it went down, as opposed to being held or let go.
    pub pressed: bool,
}

/// What the display loop does next.
#[derive(Clone, Copy, Debug, PartialEq, Eq, Structural)]
pub enum UiAction {
    /// Leave the loop.
    Quit,
    /// Redraw, then go round again.
    Draw,
    /// Go round again.
    Wait,
}

/// Whether an input ends the program: pressing `q` or escape does.
pub open spec fn ends(input: Option<KeyInput>) -> bool {
    input matches Some(k) && k.pressed && (k.key == Key::Char('q') || k.key == Key::Esc)
}

/// Decides on the next action from the input since the last round, if there was
/// any, and the time since the last redraw in nanoseconds.
pub fn ui_action(input: Option<KeyInput>, since_draw_nanos: u128) -> (action: UiAction)
    ensures
        action == (if ends(input) {
            UiAction::Quit
        } else if since_draw_nanos >= UI_TICK_MILLIS * 1_000_000 {
            UiAction::Draw
        } else {
            UiAction::Wait
        }),
        action is Quit <==> input == Some(KeyInput { key: Key::Char('q'), pressed: true }) || input
            == Some(KeyInput { key: Key::Esc, pressed: true }),
        !(action is Quit) ==> (action is Draw <==> since_draw_nanos >= 33_000_000),
{
    if let Some(k) = input {
        if k.pressed {
            match k.key {
                Key::Char(c) => {
                    if c == 'q' {
                        return UiAction::Quit;
                    }
                },
                Key::Esc => {
                    return UiAction::Quit;
                },
                Key::Other => {},
            }
        }
    }
    if since_draw_nanos >= UI_TICK_MILLIS as u128 * 1_000_000 {
        UiAction::Draw
    } else {
        UiAction::Wait
    }
}

/// Two inputs end the program and no other: `q` going down, and escape going down.
pub proof fn only_two_inputs_end(input: Option<KeyInput>)
    ensures
        ends(input) <==> input == Some(KeyInput { key: Key::Char('q'), pressed: true }) || input
            == Some(KeyInput { key: Key::Esc, pressed: true }),
        UI_TICK_MILLIS == 33,
{
}

} // verus!
