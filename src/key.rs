//! Typed keys decoded from the raw bytes a terminal sends.

use vstd::prelude::*;
use vstd::string::*;
use vstd::utf8::*;

verus! {

/// The key that was pressed, without its modifiers.
#[derive(Debug, Clone, Copy, PartialEq, Eq, Structural, Hash, PartialOrd, Ord)]
pub enum KeyCode {
    Left,
    Right,
    Up,
    Down,
    Home,
    End,
    Backspace,
    Enter,
    Space,
    Tab,
    Esc,
    Char(char),
}

/// A set of modifier keys held down, one bit each.
#[derive(Debug, Clone, Copy, PartialEq, Eq, Structural, Hash, PartialOrd, Ord)]
pub struct Modifier(pub u32);

/// Bit of the shift modifier.
pub const SHIFT_BIT: u32 = 0x1;

/// Bit of the control modifier.
pub const CTRL_BIT: u32 = 0x2;

impl Modifier {
    /// No modifier held.
    pub fn none() -> (r: Modifier)
        ensures
            r.0 == 0,
    {
        Modifier(0)
    }

    /// Only shift held.
    pub fn shift() -> (r: Modifier)
        ensures
            r.0 == SHIFT_BIT,
    {
        Modifier(SHIFT_BIT)
    }

    /// Only control held.
    pub fn ctrl() -> (r: Modifier)
        ensures
            r.0 == CTRL_BIT,
    {
        Modifier(CTRL_BIT)
    }

    /// Whether any of the modifiers in `modifier` is held in `self`.
    pub fn contains(&self, modifier: Modifier) -> (r: bool)
        ensures
            r == (self.0 & modifier.0 != 0),
    {
        self.0 & modifier.0 != 0
    }

    /// The modifiers held in either set.
    pub fn union(self, other: Modifier) -> (r: Modifier)
        ensures
            r.0 == self.0 | other.0,
    {
        Modifier(self.0 | other.0)
    }
}

/// A key together with the modifiers held while it was pressed.
#[derive(Debug, Clone, Copy, PartialEq, Eq, Structural, Hash, PartialOrd, Ord)]
pub struct Key {
    pub keycode: KeyCode,
    pub modifiers: Modifier,
}

/// Whether a character is upper case, as the standard library decides it.
pub uninterp spec fn upper_of(c: char) -> bool;

/// Relies on char::is_uppercase: the answer depends on the character alone.
#[verifier::external_body]
fn is_upper(c: char) -> (r: bool)
    ensures
        r == upper_of(c),
{
    c.is_uppercase()
}

/// Relies on core::str::from_utf8: it succeeds exactly on valid UTF-8, and the
/// text then holds the decoded characters.
#[verifier::external_body]
fn utf8_text(bytes: &[u8]) -> (r: Option<&str>)
    ensures
        r.is_some() <==> valid_utf8(bytes@),
        r matches Some(s) ==> s@ == decode_utf8(bytes@),
{
    core::str::from_utf8(bytes).ok()
}

/// A key without modifiers.
pub open spec fn plain(code: KeyCode) -> Key {
    Key { keycode: code, modifiers: Modifier(0) }
}

/// A key held with control.
pub open spec fn with_ctrl(code: KeyCode) -> Key {
    Key { keycode: code, modifiers: Modifier(CTRL_BIT) }
}

/// The key of a printable character; upper-case ones carry shift.
pub open spec fn char_key(c: char, upper: bool) -> Key {
    if upper {
        Key { keycode: KeyCode::Char(c), modifiers: Modifier(SHIFT_BIT) }
    } else {
        plain(KeyCode::Char(c))
    }
}

/// The key of the escape sequence `ESC [ letter`.
pub open spec fn csi_key(letter: u8) -> Option<Key> {
    if letter == 0x44 {
        Some(plain(KeyCode::Left))
    } else if letter == 0x43 {
        Some(plain(KeyCode::Right))
    } else if letter == 0x41 {
        Some(plain(KeyCode::Up))
    } else if letter == 0x42 {
        Some(plain(KeyCode::Down))
    } else if letter == 0x48 {
        Some(plain(KeyCode::Home))
    } else if letter == 0x46 {
        Some(plain(KeyCode::End))
    } else {
        None
    }
}

/// The key of bytes that begin with a printable character: the first
/// character of valid UTF-8 text.
pub open spec fn text_key(b: Seq<u8>) -> Option<Key> {
    if valid_utf8(b) && decode_utf8(b).len() > 0 {
        let c = decode_utf8(b)[0];
        Some(char_key(c, upper_of(c)))
    } else {
        None
    }
}

/// The key that a group of input bytes stands for, if any.
pub open spec fn key_of_bytes(b: Seq<u8>) -> Option<Key> {
    if b.len() == 0 {
        None
    } else if b[0] == 0x1b {
        if b.len() == 1 {
            Some(plain(KeyCode::Esc))
        } else if b[1] != 0x5b || b.len() == 2 {
            None
        } else {
            csi_key(b[2])
        }
    } else if b[0] == 0x0d {
        Some(plain(KeyCode::Enter))
    } else if b[0] == 0x09 {
        Some(plain(KeyCode::Tab))
    } else if b[0] == 0x7f {
        Some(plain(KeyCode::Backspace))
    } else if b[0] == 0 {
        Some(with_ctrl(KeyCode::Enter))
    } else if 0x01 <= b[0] <= 0x1a {
        Some(with_ctrl(KeyCode::Char(((b[0] - 0x01 + 0x61) as u8) as char)))
    } else if 0x1c <= b[0] <= 0x1f {
        Some(with_ctrl(KeyCode::Char(((b[0] - 0x1c + 0x34) as u8) as char)))
    } else {
        text_key(b)
    }
}

impl Key {
    /// A key without modifiers.
    pub fn from_code(code: KeyCode) -> (r: Key)
        ensures
            r == plain(code),
    {
        Key { keycode: code, modifiers: Modifier(0) }
    }

    /// The key of a printable character, given whether it is upper case.
    pub fn from_char(c: char, upper: bool) -> (r: Key)
        ensures
            r == char_key(c, upper),
    {
        if upper {
            Key { keycode: KeyCode::Char(c), modifiers: Modifier(SHIFT_BIT) }
        } else {
            Key { keycode: KeyCode::Char(c), modifiers: Modifier(0) }
        }
    }

    /// Decodes one group of terminal input bytes into a key. Unknown escape
    /// sequences and invalid text give `None`.
    pub fn from_bytes(bytes: &[u8]) -> (r: Option<Key>)
        ensures
            r == key_of_bytes(bytes@),
    {
        if bytes.len() == 0 {
            return None;
        }
        let first = bytes[0];
        if first == 0x1b {
            if bytes.len() == 1 {
                Some(Key::from_code(KeyCode::Esc))
            } else if bytes[1] != 0x5b || bytes.len() == 2 {
                None
            } else {
                let letter = bytes[2];
                if letter == 0x44 {
                    Some(Key::from_code(KeyCode::Left))
                } else if letter == 0x43 {
                    Some(Key::from_code(KeyCode::Right))
                } else if letter == 0x41 {
                    Some(Key::from_code(KeyCode::Up))
                } else if letter == 0x42 {
                    Some(Key::from_code(KeyCode::Down))
                } else if letter == 0x48 {
                    Some(Key::from_code(KeyCode::Home))
                } else if letter == 0x46 {
                    Some(Key::from_code(KeyCode::End))
                } else {
                    None
                }
            }
        } else if first == 0x0d {
            Some(Key::from_code(KeyCode::Enter))
        } else if first == 0x09 {
            Some(Key::from_code(KeyCode::Tab))
        } else if first == 0x7f {
            Some(Key::from_code(KeyCode::Backspace))
        } else if first == 0 {
            Some(Key { keycode: KeyCode::Enter, modifiers: Modifier(CTRL_BIT) })
        } else if 0x01 <= first && first <= 0x1a {
            let c = (first - 0x01 + 0x61) as char;
            Some(Key { keycode: KeyCode::Char(c), modifiers: Modifier(CTRL_BIT) })
        } else if 0x1c <= first && first <= 0x1f {
            let c = (first - 0x1c + 0x34) as char;
            Some(Key { keycode: KeyCode::Char(c), modifiers: Modifier(CTRL_BIT) })
        } else {
            match utf8_text(bytes) {
                Some(text) => {
                    if text.unicode_len() == 0 {
                        None
                    } else {
                        let c = text.get_char(0);
                        Some(Key::from_char(c, is_upper(c)))
                    }
                },
                None => None,
            }
        }
    }

    /// Whether this is the escape key, whatever the modifiers.
    pub fn is_esc(&self) -> (r: bool)
        ensures
            r == (self.keycode == KeyCode::Esc),
    {
        match self.keycode {
            KeyCode::Esc => true,
            _ => false,
        }
    }
}

} // verus!
