//! Editor modes and the line-input machinery that the command mode reads
//! through.

use vstd::prelude::*;

use crate::key::Key;

pub mod command;

verus! {

/// The editor's modal states.
#[derive(Debug, Clone, Copy, PartialEq, Eq, Structural)]
pub enum Mode {
    Normal,
    Insert,
    ReadLine,
    Picker,
    Command,
}

impl Default for Mode {
    fn default() -> (r: Self)
        ensures
            r == Mode::Normal,
    {
        Mode::Normal
    }
}

/// The mode a transient mode returns to when input ends.
#[derive(Debug, Clone, Copy, PartialEq, Eq, Structural)]
pub enum FromMode {
    Normal,
    Insert,
}

impl FromMode {
    pub fn as_mode(&self) -> (r: Mode)
        ensures
            *self == FromMode::Normal ==> r == Mode::Normal,
            *self == FromMode::Insert ==> r == Mode::Insert,
    {
        match self {
            FromMode::Normal => Mode::Normal,
            FromMode::Insert => Mode::Insert,
        }
    }
}

/// What one key did to a line being read: cancelled it, submitted it, or
/// left it still being typed.
#[derive(Debug, Clone, Copy, PartialEq, Eq, Structural)]
pub enum InputResult {
    Canceled,
    Submited,
    Pending,
}

/// What feeding one key into a line of input yields: the new line text and
/// the input's outcome. Escape cancels; enter submits; backspace removes the
/// last character; a plain character is appended; other keys change nothing.
pub open spec fn spec_poll_input(input: Seq<char>, key: Key) -> (Seq<char>, InputResult) {
    match key {
        Key::Esc => (Seq::empty(), InputResult::Canceled),
        Key::Enter => (input, InputResult::Submited),
        Key::Backspace => (
            if input.len() > 0 {
                input.drop_last()
            } else {
                input
            },
            InputResult::Pending,
        ),
        Key::Char(c) => (input.push(c), InputResult::Pending),
        _ => (input, InputResult::Pending),
    }
}

/// Relies on `String::clear`: leaves the string empty.
pub assume_specification[ std::string::String::clear ](s: &mut std::string::String)
    ensures
        final(s)@ == Seq::<char>::empty(),
;

/// Relies on `String::pop`: removes and returns the string's last character.
#[verifier::external_body]
fn pop_char(s: &mut String) -> (r: Option<char>)
    ensures
        old(s)@.len() == 0 ==> r is None && final(s)@ == old(s)@,
        old(s)@.len() > 0 ==> r == Some(old(s)@.last()) && final(s)@ == old(s)@.drop_last(),
{
    s.pop()
}

/// Relies on `String::push`: appends the character to the string.
#[verifier::external_body]
pub fn push_char(s: &mut String, c: char)
    ensures
        final(s)@ == old(s)@.push(c),
{
    s.push(c);
}

/// Feeds one key into the line being read.
pub fn poll_input(input: &mut String, key: Key) -> (r: InputResult)
    ensures
        ({
            let sr = spec_poll_input(old(input)@, key);
            final(input)@ == sr.0 && r == sr.1
        }),
{
    match key {
        Key::Esc => {
            input.clear();
            InputResult::Canceled
        },
        Key::Enter => InputResult::Submited,
        Key::Backspace => {
            let _ = pop_char(input);
            InputResult::Pending
        },
        Key::Char(c) => {
            push_char(input, c);
            InputResult::Pending
        },
        _ => InputResult::Pending,
    }
}

} // verus!
