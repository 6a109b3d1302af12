//! Input handling: which key gives which command.

use vstd::prelude::*;

verus! {

/// Game inputs.
#[derive(Debug, Clone, Copy, PartialEq, Eq, Structural)]
pub enum Input {
    /// Move in a hex direction, 0 to 5.
    Move(usize),
    Attack,
    CastSpell,
    CraftSpell,
    SelectSpell(usize),
    Confirm,
    Cancel,
    Wait,
    Quit,
}

/// A key as the terminal reports it, as far as commands depend on it.
#[derive(Debug, Clone, Copy, PartialEq, Eq, Structural)]
pub enum Key {
    /// A character key.
    Char(char),
    /// A function key, F1 to F12.
    F(u8),
    Enter,
    Esc,
    /// Any other key.
    Other,
}

/// The command of a key: hex moves on `e w q a z x` (or the numpad digits
/// 6 9 7 4 1 3), attack on space, cast on `c`, craft on `r`, wait on `.` or
/// 5, confirm on Enter, cancel on Esc, spells on F1 to F3 and quit on `Q`.
pub open spec fn command_of(key: Key) -> Option<Input> {
    match key {
        Key::Char(c) => {
            if c == 'e' || c == '6' {
                Some(Input::Move(0))
            } else if c == 'w' || c == '9' {
                Some(Input::Move(1))
            } else if c == 'q' || c == '7' {
                Some(Input::Move(2))
            } else if c == 'a' || c == '4' {
                Some(Input::Move(3))
            } else if c == 'z' || c == '1' {
                Some(Input::Move(4))
            } else if c == 'x' || c == '3' {
                Some(Input::Move(5))
            } else if c == ' ' {
                Some(Input::Attack)
            } else if c == 'c' {
                Some(Input::CastSpell)
            } else if c == 'r' {
                Some(Input::CraftSpell)
            } else if c == '.' || c == '5' {
                Some(Input::Wait)
            } else if c == 'Q' {
                Some(Input::Quit)
            } else {
                None
            }
        },
        Key::F(n) => {
            if 1 <= n <= 3 {
                Some(Input::SelectSpell((n - 1) as usize))
            } else {
                None
            }
        },
        Key::Enter => Some(Input::Confirm),
        Key::Esc => Some(Input::Cancel),
        Key::Other => None,
    }
}

/// The command of a key, if it has one.
pub fn key_to_input(key: Key) -> (input: Option<Input>)
    ensures
        input == command_of(key),
{
    match key {
        Key::Char(c) => {
            if c == 'e' || c == '6' {
                Some(Input::Move(0))
            } else if c == 'w' || c == '9' {
                Some(Input::Move(1))
            } else if c == 'q' || c == '7' {
                Some(Input::Move(2))
            } else if c == 'a' || c == '4' {
                Some(Input::Move(3))
            } else if c == 'z' || c == '1' {
                Some(Input::Move(4))
            } else if c == 'x' || c == '3' {
                Some(Input::Move(5))
            } else if c == ' ' {
                Some(Input::Attack)
            } else if c == 'c' {
                Some(Input::CastSpell)
            } else if c == 'r' {
                Some(Input::CraftSpell)
            } else if c == '.' || c == '5' {
                Some(Input::Wait)
            } else if c == 'Q' {
                Some(Input::Quit)
            } else {
                None
            }
        },
        Key::F(n) => {
            if 1 <= n && n <= 3 {
                Some(Input::SelectSpell((n - 1) as usize))
            } else {
                None
            }
        },
        Key::Enter => Some(Input::Confirm),
        Key::Esc => Some(Input::Cancel),
        Key::Other => None,
    }
}

} // verus!
