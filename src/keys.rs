//! What the interactive generator does on a key press.
use vstd::prelude::*;

verus! {

/// A key press, as far as the interactive generator tells keys apart.
#[derive(Debug, Clone, Copy, PartialEq, Eq, Structural)]
pub enum Key {
    Char(char),
    Enter,
    Esc,
    Other,
}

/// What to do after a key press.
#[derive(Debug, Clone, Copy, PartialEq, Eq, Structural)]
pub enum Action {
    /// Leave the interactive loop.
    Quit,
    /// Draw a fresh passphrase.
    Regenerate,
    /// Keep the current passphrase.
    Ignore,
}

/// `q` and Esc quit; space, Enter and `r` draw a new passphrase; other keys do nothing.
pub open spec fn spec_action_for(key: Key) -> Action {
    match key {
        Key::Char(c) => if c == 'q' {
            Action::Quit
        } else if c == ' ' || c == 'r' {
            Action::Regenerate
        } else {
            Action::Ignore
        },
        Key::Esc => Action::Quit,
        Key::Enter => Action::Regenerate,
        Key::Other => Action::Ignore,
    }
}

/// The action for a key press.
pub fn action_for(key: Key) -> (a: Action)
    ensures
        a == spec_action_for(key),
{
    match key {
        Key::Char('q') | Key::Esc => Action::Quit,
        Key::Char(' ') | Key::Enter | Key::Char('r') => Action::Regenerate,
        _ => Action::Ignore,
    }
}

} // verus!
