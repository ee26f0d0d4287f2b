//! Key events.
use vstd::prelude::*;

verus! {

/// A key on the keyboard: one of the named keys, or one that types a character.
#[allow(non_camel_case_types)]
#[derive(Debug, Clone, Copy, PartialEq, Eq, Structural)]
pub enum Keysym {
    RETURN,
    ESCAPE,
    SPACE,
    TAB,
    BACKSPACE,
    UP,
    DOWN,
    LEFT,
    RIGHT,
    PAGE_UP,
    PAGE_DOWN,
    /// A key that types a character other than a space.
    Character(char),
    /// Any other key, by its keysym number.
    Other(u32),
}

/// The keys held down with another key.
#[derive(Debug, Clone, Copy, PartialEq, Eq, Structural)]
pub struct KeyModifiers {
    pub shift_key: bool,
    pub control_key: bool,
    pub alt_key: bool,
}

/// A key press.
#[derive(Debug, Clone, Copy, PartialEq, Eq, Structural)]
pub struct KeyEvent {
    pub keysym: Keysym,
    pub modifiers: KeyModifiers,
}

/// The number on a digit key `1` to `9`.
pub open spec fn digit_of(k: Keysym) -> Option<nat> {
    match k {
        Keysym::Character(c) => if '1' <= c && c <= '9' {
            Some((c as u32 - '0' as u32) as nat)
        } else {
            None
        },
        _ => None,
    }
}

/// The character that a key types.
pub open spec fn typed_by(k: Keysym) -> Option<char> {
    match k {
        Keysym::Character(c) => Some(c),
        Keysym::SPACE => Some(' '),
        _ => None,
    }
}

impl KeyModifiers {
    pub fn none() -> (r: Self)
        ensures
            r == (KeyModifiers { shift_key: false, control_key: false, alt_key: false }),
    {
        KeyModifiers { shift_key: false, control_key: false, alt_key: false }
    }
}

impl Keysym {
    /// The key that types `c`.
    pub fn from_char(c: char) -> (r: Self)
        ensures
            typed_by(r) == Some(c),
            c != ' ' ==> r == Keysym::Character(c),
            c == ' ' ==> r == Keysym::SPACE,
    {
        if c == ' ' {
            Keysym::SPACE
        } else {
            Keysym::Character(c)
        }
    }

    /// The number on a digit key `1` to `9`.
    pub fn digit_value(&self) -> (r: Option<usize>)
        ensures
            r is Some <==> digit_of(*self) is Some,
            r is Some ==> r->0 == digit_of(*self)->0 && 1 <= r->0 <= 9,
    {
        match *self {
            Keysym::Character(c) => {
                if '1' <= c && c <= '9' {
                    Some((c as u32 - '0' as u32) as usize)
                } else {
                    None
                }
            },
            _ => None,
        }
    }
}

impl KeyEvent {
    pub fn new(keysym: Keysym, modifiers: KeyModifiers) -> (r: Self)
        ensures
            r == (KeyEvent { keysym, modifiers }),
    {
        KeyEvent { keysym, modifiers }
    }

    /// The character that the key types.
    pub fn to_char(&self) -> (r: Option<char>)
        ensures
            r == typed_by(self.keysym),
    {
        match self.keysym {
            Keysym::Character(c) => Some(c),
            Keysym::SPACE => Some(' '),
            _ => None,
        }
    }
}

} // verus!
