use std::collections::VecDeque;
use vstd::prelude::*;

use crate::messages::HardwareInterrupt;

verus! {

/// The keys of a PC keyboard, as scan code set 1 numbers them.
#[derive(Debug, Clone, Copy, PartialEq, Eq)]
pub enum Key {
    Escape,
    Key1,
    Key2,
    Key3,
    Key4,
    Key5,
    Key6,
    Key7,
    Key8,
    Key9,
    Key0,
    Minus,
    Equals,
    Backspace,
    Tab,
    Q,
    W,
    E,
    R,
    T,
    Y,
    U,
    I,
    O,
    P,
    LeftBracket,
    RightBracket,
    Enter,
    LeftControl,
    A,
    S,
    D,
    F,
    G,
    H,
    J,
    K,
    L,
    Semicolon,
    Apostrophe,
    Grave,
    LeftShift,
    Backslash,
    Z,
    X,
    C,
    V,
    B,
    N,
    M,
    Comma,
    Period,
    Slash,
    RightShift,
    KeypadAsterisk,
    LeftAlt,
    Spacebar,
    CapsLock,
    F1,
    F2,
    F3,
    F4,
    F5,
    F6,
    F7,
    F8,
    F9,
    F10,
    NumLock,
    ScrollLock,
    Keypad7,
    Keypad8,
    Keypad9,
    KeypadMinus,
    Keypad4,
    Keypad5,
    Keypad6,
    KeypadPlus,
    Keypad1,
    Keypad2,
    Keypad3,
    Keypad0,
    KeypadPeriod,
    F11,
    F12,
}

/// The key that scan code `code` (without its release bit) stands for.
pub open spec fn scancode_key(code: u8) -> Option<Key> {
    match code {
        0x01 => Some(Key::Escape),
        0x02 => Some(Key::Key1),
        0x03 => Some(Key::Key2),
        0x04 => Some(Key::Key3),
        0x05 => Some(Key::Key4),
        0x06 => Some(Key::Key5),
        0x07 => Some(Key::Key6),
        0x08 => Some(Key::Key7),
        0x09 => Some(Key::Key8),
        0x0A => Some(Key::Key9),
        0x0B => Some(Key::Key0),
        0x0C => Some(Key::Minus),
        0x0D => Some(Key::Equals),
        0x0E => Some(Key::Backspace),
        0x0F => Some(Key::Tab),
        0x10 => Some(Key::Q),
        0x11 => Some(Key::W),
        0x12 => Some(Key::E),
        0x13 => Some(Key::R),
        0x14 => Some(Key::T),
        0x15 => Some(Key::Y),
        0x16 => Some(Key::U),
        0x17 => Some(Key::I),
        0x18 => Some(Key::O),
        0x19 => Some(Key::P),
        0x1A => Some(Key::LeftBracket),
        0x1B => Some(Key::RightBracket),
        0x1C => Some(Key::Enter),
        0x1D => Some(Key::LeftControl),
        0x1E => Some(Key::A),
        0x1F => Some(Key::S),
        0x20 => Some(Key::D),
        0x21 => Some(Key::F),
        0x22 => Some(Key::G),
        0x23 => Some(Key::H),
        0x24 => Some(Key::J),
        0x25 => Some(Key::K),
        0x26 => Some(Key::L),
        0x27 => Some(Key::Semicolon),
        0x28 => Some(Key::Apostrophe),
        0x29 => Some(Key::Grave),
        0x2A => Some(Key::LeftShift),
        0x2B => Some(Key::Backslash),
        0x2C => Some(Key::Z),
        0x2D => Some(Key::X),
        0x2E => Some(Key::C),
        0x2F => Some(Key::V),
        0x30 => Some(Key::B),
        0x31 => Some(Key::N),
        0x32 => Some(Key::M),
        0x33 => Some(Key::Comma),
        0x34 => Some(Key::Period),
        0x35 => Some(Key::Slash),
        0x36 => Some(Key::RightShift),
        0x37 => Some(Key::KeypadAsterisk),
        0x38 => Some(Key::LeftAlt),
        0x39 => Some(Key::Spacebar),
        0x3A => Some(Key::CapsLock),
        0x3B => Some(Key::F1),
        0x3C => Some(Key::F2),
        0x3D => Some(Key::F3),
        0x3E => Some(Key::F4),
        0x3F => Some(Key::F5),
        0x40 => Some(Key::F6),
        0x41 => Some(Key::F7),
        0x42 => Some(Key::F8),
        0x43 => Some(Key::F9),
        0x44 => Some(Key::F10),
        0x45 => Some(Key::NumLock),
        0x46 => Some(Key::ScrollLock),
        0x47 => Some(Key::Keypad7),
        0x48 => Some(Key::Keypad8),
        0x49 => Some(Key::Keypad9),
        0x4A => Some(Key::KeypadMinus),
        0x4B => Some(Key::Keypad4),
        0x4C => Some(Key::Keypad5),
        0x4D => Some(Key::Keypad6),
        0x4E => Some(Key::KeypadPlus),
        0x4F => Some(Key::Keypad1),
        0x50 => Some(Key::Keypad2),
        0x51 => Some(Key::Keypad3),
        0x52 => Some(Key::Keypad0),
        0x53 => Some(Key::KeypadPeriod),
        0x57 => Some(Key::F11),
        0x58 => Some(Key::F12),
        _ => None,
    }
}

/// The character that `key` types, if it types one.
pub open spec fn key_char(key: Key) -> Option<char> {
    match key {
        Key::Escape => None,
        Key::Key1 => Some('1'),
        Key::Key2 => Some('2'),
        Key::Key3 => Some('3'),
        Key::Key4 => Some('4'),
        Key::Key5 => Some('5'),
        Key::Key6 => Some('6'),
        Key::Key7 => Some('7'),
        Key::Key8 => Some('8'),
        Key::Key9 => Some('9'),
        Key::Key0 => Some('0'),
        Key::Minus => Some('-'),
        Key::Equals => Some('='),
        Key::Backspace => Some('\x08'),
        Key::Tab => Some('\t'),
        Key::Q => Some('q'),
        Key::W => Some('w'),
        Key::E => Some('e'),
        Key::R => Some('r'),
        Key::T => Some('t'),
        Key::Y => Some('y'),
        Key::U => Some('u'),
        Key::I => Some('i'),
        Key::O => Some('o'),
        Key::P => Some('p'),
        Key::LeftBracket => Some('['),
        Key::RightBracket => Some(']'),
        Key::Enter => Some('\n'),
        Key::LeftControl => None,
        Key::A => Some('a'),
        Key::S => Some('s'),
        Key::D => Some('d'),
        Key::F => Some('f'),
        Key::G => Some('g'),
        Key::H => Some('h'),
        Key::J => Some('j'),
        Key::K => Some('k'),
        Key::L => Some('l'),
        Key::Semicolon => Some(';'),
        Key::Apostrophe => Some('\''),
        Key::Grave => None,
        Key::LeftShift => None,
        Key::Backslash => Some('\\'),
        Key::Z => Some('z'),
        Key::X => Some('x'),
        Key::C => Some('c'),
        Key::V => Some('v'),
        Key::B => Some('b'),
        Key::N => Some('n'),
        Key::M => Some('m'),
        Key::Comma => Some(','),
        Key::Period => Some('.'),
        Key::Slash => Some('/'),
        Key::RightShift => None,
        Key::KeypadAsterisk => None,
        Key::LeftAlt => None,
        Key::Spacebar => Some(' '),
        Key::CapsLock => None,
        Key::F1 => None,
        Key::F2 => None,
        Key::F3 => None,
        Key::F4 => None,
        Key::F5 => None,
        Key::F6 => None,
        Key::F7 => None,
        Key::F8 => None,
        Key::F9 => None,
        Key::F10 => None,
        Key::NumLock => None,
        Key::ScrollLock => None,
        Key::Keypad7 => None,
        Key::Keypad8 => None,
        Key::Keypad9 => None,
        Key::KeypadMinus => None,
        Key::Keypad4 => None,
        Key::Keypad5 => None,
        Key::Keypad6 => None,
        Key::KeypadPlus => None,
        Key::Keypad1 => None,
        Key::Keypad2 => None,
        Key::Keypad3 => None,
        Key::Keypad0 => None,
        Key::KeypadPeriod => None,
        Key::F11 => None,
        Key::F12 => None,
    }
}

impl Key {
    /// The key of a scan code of set 1; the release bit (0x80) is ignored.
    /// An unknown code comes back as the error, without its release bit.
    pub fn from_scancode_set1(value: u8) -> (key: Result<Self, u8>)
        ensures
            match key {
                Ok(k) => scancode_key(value & 0x7F) == Some(k),
                Err(code) => code == value & 0x7F && scancode_key(value & 0x7F) is None,
            },
    {
        let value = value & 0x7F;
        match value {
            0x01 => Ok(Key::Escape),
            0x02 => Ok(Key::Key1),
            0x03 => Ok(Key::Key2),
            0x04 => Ok(Key::Key3),
            0x05 => Ok(Key::Key4),
            0x06 => Ok(Key::Key5),
            0x07 => Ok(Key::Key6),
            0x08 => Ok(Key::Key7),
            0x09 => Ok(Key::Key8),
            0x0A => Ok(Key::Key9),
            0x0B => Ok(Key::Key0),
            0x0C => Ok(Key::Minus),
            0x0D => Ok(Key::Equals),
            0x0E => Ok(Key::Backspace),
            0x0F => Ok(Key::Tab),
            0x10 => Ok(Key::Q),
            0x11 => Ok(Key::W),
            0x12 => Ok(Key::E),
            0x13 => Ok(Key::R),
            0x14 => Ok(Key::T),
            0x15 => Ok(Key::Y),
            0x16 => Ok(Key::U),
            0x17 => Ok(Key::I),
            0x18 => Ok(Key::O),
            0x19 => Ok(Key::P),
            0x1A => Ok(Key::LeftBracket),
            0x1B => Ok(Key::RightBracket),
            0x1C => Ok(Key::Enter),
            0x1D => Ok(Key::LeftControl),
            0x1E => Ok(Key::A),
            0x1F => Ok(Key::S),
            0x20 => Ok(Key::D),
            0x21 => Ok(Key::F),
            0x22 => Ok(Key::G),
            0x23 => Ok(Key::H),
            0x24 => Ok(Key::J),
            0x25 => Ok(Key::K),
            0x26 => Ok(Key::L),
            0x27 => Ok(Key::Semicolon),
            0x28 => Ok(Key::Apostrophe),
            0x29 => Ok(Key::Grave),
            0x2A => Ok(Key::LeftShift),
            0x2B => Ok(Key::Backslash),
            0x2C => Ok(Key::Z),
            0x2D => Ok(Key::X),
            0x2E => Ok(Key::C),
            0x2F => Ok(Key::V),
            0x30 => Ok(Key::B),
            0x31 => Ok(Key::N),
            0x32 => Ok(Key::M),
            0x33 => Ok(Key::Comma),
            0x34 => Ok(Key::Period),
            0x35 => Ok(Key::Slash),
            0x36 => Ok(Key::RightShift),
            0x37 => Ok(Key::KeypadAsterisk),
            0x38 => Ok(Key::LeftAlt),
            0x39 => Ok(Key::Spacebar),
            0x3A => Ok(Key::CapsLock),
            0x3B => Ok(Key::F1),
            0x3C => Ok(Key::F2),
            0x3D => Ok(Key::F3),
            0x3E => Ok(Key::F4),
            0x3F => Ok(Key::F5),
            0x40 => Ok(Key::F6),
            0x41 => Ok(Key::F7),
            0x42 => Ok(Key::F8),
            0x43 => Ok(Key::F9),
            0x44 => Ok(Key::F10),
            0x45 => Ok(Key::NumLock),
            0x46 => Ok(Key::ScrollLock),
            0x47 => Ok(Key::Keypad7),
            0x48 => Ok(Key::Keypad8),
            0x49 => Ok(Key::Keypad9),
            0x4A => Ok(Key::KeypadMinus),
            0x4B => Ok(Key::Keypad4),
            0x4C => Ok(Key::Keypad5),
            0x4D => Ok(Key::Keypad6),
            0x4E => Ok(Key::KeypadPlus),
            0x4F => Ok(Key::Keypad1),
            0x50 => Ok(Key::Keypad2),
            0x51 => Ok(Key::Keypad3),
            0x52 => Ok(Key::Keypad0),
            0x53 => Ok(Key::KeypadPeriod),
            0x57 => Ok(Key::F11),
            0x58 => Ok(Key::F12),
            _ => Err(value),
        }
    }
}

/// A key press as the console sees it: the character it types, if any.
#[derive(Debug)]
pub struct KeyboardEvent {
    pub char: Option<char>,
}

impl KeyboardEvent {
    /// The event of pressing `key`.
    pub fn from_key(key: Key) -> (event: KeyboardEvent)
        ensures
            event.char == key_char(key),
    {
        match key {
            Key::Escape => KeyboardEvent { char: None },
            Key::Key1 => KeyboardEvent { char: Some('1') },
            Key::Key2 => KeyboardEvent { char: Some('2') },
            Key::Key3 => KeyboardEvent { char: Some('3') },
            Key::Key4 => KeyboardEvent { char: Some('4') },
            Key::Key5 => KeyboardEvent { char: Some('5') },
            Key::Key6 => KeyboardEvent { char: Some('6') },
            Key::Key7 => KeyboardEvent { char: Some('7') },
            Key::Key8 => KeyboardEvent { char: Some('8') },
            Key::Key9 => KeyboardEvent { char: Some('9') },
            Key::Key0 => KeyboardEvent { char: Some('0') },
            Key::Minus => KeyboardEvent { char: Some('-') },
            Key::Equals => KeyboardEvent { char: Some('=') },
            Key::Backspace => KeyboardEvent { char: Some('\x08') },
            Key::Tab => KeyboardEvent { char: Some('\t') },
            Key::Q => KeyboardEvent { char: Some('q') },
            Key::W => KeyboardEvent { char: Some('w') },
            Key::E => KeyboardEvent { char: Some('e') },
            Key::R => KeyboardEvent { char: Some('r') },
            Key::T => KeyboardEvent { char: Some('t') },
            Key::Y => KeyboardEvent { char: Some('y') },
            Key::U => KeyboardEvent { char: Some('u') },
            Key::I => KeyboardEvent { char: Some('i') },
            Key::O => KeyboardEvent { char: Some('o') },
            Key::P => KeyboardEvent { char: Some('p') },
            Key::LeftBracket => KeyboardEvent { char: Some('[') },
            Key::RightBracket => KeyboardEvent { char: Some(']') },
            Key::Enter => KeyboardEvent { char: Some('\n') },
            Key::LeftControl => KeyboardEvent { char: None },
            Key::A => KeyboardEvent { char: Some('a') },
            Key::S => KeyboardEvent { char: Some('s') },
            Key::D => KeyboardEvent { char: Some('d') },
            Key::F => KeyboardEvent { char: Some('f') },
            Key::G => KeyboardEvent { char: Some('g') },
            Key::H => KeyboardEvent { char: Some('h') },
            Key::J => KeyboardEvent { char: Some('j') },
            Key::K => KeyboardEvent { char: Some('k') },
            Key::L => KeyboardEvent { char: Some('l') },
            Key::Semicolon => KeyboardEvent { char: Some(';') },
            Key::Apostrophe => KeyboardEvent { char: Some('\'') },
            Key::Grave => KeyboardEvent { char: None },
            Key::LeftShift => KeyboardEvent { char: None },
            Key::Backslash => KeyboardEvent { char: Some('\\') },
            Key::Z => KeyboardEvent { char: Some('z') },
            Key::X => KeyboardEvent { char: Some('x') },
            Key::C => KeyboardEvent { char: Some('c') },
            Key::V => KeyboardEvent { char: Some('v') },
            Key::B => KeyboardEvent { char: Some('b') },
            Key::N => KeyboardEvent { char: Some('n') },
            Key::M => KeyboardEvent { char: Some('m') },
            Key::Comma => KeyboardEvent { char: Some(',') },
            Key::Period => KeyboardEvent { char: Some('.') },
            Key::Slash => KeyboardEvent { char: Some('/') },
            Key::RightShift => KeyboardEvent { char: None },
            Key::KeypadAsterisk => KeyboardEvent { char: None },
            Key::LeftAlt => KeyboardEvent { char: None },
            Key::Spacebar => KeyboardEvent { char: Some(' ') },
            Key::CapsLock => KeyboardEvent { char: None },
            Key::F1 => KeyboardEvent { char: None },
            Key::F2 => KeyboardEvent { char: None },
            Key::F3 => KeyboardEvent { char: None },
            Key::F4 => KeyboardEvent { char: None },
            Key::F5 => KeyboardEvent { char: None },
            Key::F6 => KeyboardEvent { char: None },
            Key::F7 => KeyboardEvent { char: None },
            Key::F8 => KeyboardEvent { char: None },
            Key::F9 => KeyboardEvent { char: None },
            Key::F10 => KeyboardEvent { char: None },
            Key::NumLock => KeyboardEvent { char: None },
            Key::ScrollLock => KeyboardEvent { char: None },
            Key::Keypad7 => KeyboardEvent { char: None },
            Key::Keypad8 => KeyboardEvent { char: None },
            Key::Keypad9 => KeyboardEvent { char: None },
            Key::KeypadMinus => KeyboardEvent { char: None },
            Key::Keypad4 => KeyboardEvent { char: None },
            Key::Keypad5 => KeyboardEvent { char: None },
            Key::Keypad6 => KeyboardEvent { char: None },
            Key::KeypadPlus => KeyboardEvent { char: None },
            Key::Keypad1 => KeyboardEvent { char: None },
            Key::Keypad2 => KeyboardEvent { char: None },
            Key::Keypad3 => KeyboardEvent { char: None },
            Key::Keypad0 => KeyboardEvent { char: None },
            Key::KeypadPeriod => KeyboardEvent { char: None },
            Key::F11 => KeyboardEvent { char: None },
            Key::F12 => KeyboardEvent { char: None },
        }
    }
}

/// Characters typed on the keyboard that no task has read yet.
pub struct KeyboardBuffer {
    keys: VecDeque<char>,
}

impl KeyboardBuffer {
    /// The characters, oldest first.
    pub closed spec fn view(&self) -> Seq<char> {
        self.keys@
    }

    pub fn new() -> (buffer: Self)
        ensures
            buffer@ == Seq::<char>::empty(),
    {
        KeyboardBuffer { keys: VecDeque::new() }
    }

    /// Appends a typed character.
    pub fn push_key(&mut self, c: char)
        ensures
            final(self)@ == old(self)@.push(c),
    {
        self.keys.push_back(c);
    }

    /// Takes the oldest character.
    pub fn pop_key(&mut self) -> (c: Option<char>)
        ensures
            match c {
                None => old(self)@.len() == 0 && final(self)@ == old(self)@,
                Some(k) => old(self)@.len() > 0 && k == old(self)@[0] && final(self)@
                    == old(self)@.drop_first(),
            },
    {
        self.keys.pop_front()
    }

    /// Whether a character waits to be read.
    pub fn has_key(&self) -> (has: bool)
        ensures
            has == (self@.len() > 0),
    {
        self.keys.len() > 0
    }
}

/// Completes when a typed character waits in the keyboard buffer.
pub struct KeyboardFuture {}

impl KeyboardFuture {
    pub fn new() -> (future: Self) {
        KeyboardFuture {}
    }

    /// Whether a character waits in `buffer`.
    pub fn is_completed(&self, buffer: &KeyboardBuffer) -> (done: bool)
        ensures
            done == (buffer@.len() > 0),
    {
        buffer.has_key()
    }
}

/// The character that scan code `scancode` of set 1 types, if any: none
/// for a release (bit 0x80 set), an unknown code or a key without one.
pub open spec fn scancode_chars(scancode: u8) -> Seq<char> {
    if scancode & 0x80 == 0 && scancode_key(scancode & 0x7F) is Some && key_char(scancode_key(scancode & 0x7F)->0) is Some {
        seq![key_char(scancode_key(scancode & 0x7F)->0)->0]
    } else {
        Seq::empty()
    }
}

/// The rows of a PC keyboard that type characters, left to right, as scan
/// code set 1 numbers their keys: the digit row from 0x02, the top row
/// from 0x10, the home row from 0x1E and the bottom row from 0x2C.
pub open spec fn digit_row() -> Seq<char> {
    seq!['1', '2', '3', '4', '5', '6', '7', '8', '9', '0', '-', '=']
}

pub open spec fn top_row() -> Seq<char> {
    seq!['q', 'w', 'e', 'r', 't', 'y', 'u', 'i', 'o', 'p', '[', ']']
}

pub open spec fn home_row() -> Seq<char> {
    seq!['a', 's', 'd', 'f', 'g', 'h', 'j', 'k', 'l', ';', '\'']
}

pub open spec fn bottom_row() -> Seq<char> {
    seq!['z', 'x', 'c', 'v', 'b', 'n', 'm', ',', '.', '/']
}

/// Each key of the keyboard's rows types the character printed on it, in
/// lower case: the key at a place in its row types the character at that
/// place. So each letter key types its own letter.
pub proof fn lemma_keys_type_their_characters()
    ensures
        forall|c: u8| 0x02 <= c < 0x02 + 12 ==> #[trigger] scancode_chars(c) == seq![digit_row()[c - 0x02]],
        forall|c: u8| 0x10 <= c < 0x10 + 12 ==> #[trigger] scancode_chars(c) == seq![top_row()[c - 0x10]],
        forall|c: u8| 0x1E <= c < 0x1E + 11 ==> #[trigger] scancode_chars(c) == seq![home_row()[c - 0x1E]],
        forall|c: u8| 0x2C <= c < 0x2C + 10 ==> #[trigger] scancode_chars(c) == seq![bottom_row()[c - 0x2C]],
{
    assert forall|c: u8| 0x02 <= c <= 0x35 implies c & 0x80 == 0 && c & 0x7F == c by {
        assert(c <= 0x7F ==> c & 0x80 == 0 && c & 0x7F == c) by (bit_vector);
    }
}

/// The keys beside the rows: Backspace, Tab, Enter, the backslash key and
/// the space bar type their control or printed characters.
pub proof fn lemma_special_keys_type_their_characters()
    ensures
        scancode_chars(0x0E) == seq!['\x08'],
        scancode_chars(0x0F) == seq!['\t'],
        scancode_chars(0x1C) == seq!['\n'],
        scancode_chars(0x2B) == seq!['\\'],
        scancode_chars(0x39) == seq![' '],
{
    assert(0x0Eu8 & 0x80 == 0 && 0x0Eu8 & 0x7F == 0x0E) by (bit_vector);
    assert(0x0Fu8 & 0x80 == 0 && 0x0Fu8 & 0x7F == 0x0F) by (bit_vector);
    assert(0x1Cu8 & 0x80 == 0 && 0x1Cu8 & 0x7F == 0x1C) by (bit_vector);
    assert(0x2Bu8 & 0x80 == 0 && 0x2Bu8 & 0x7F == 0x2B) by (bit_vector);
    assert(0x39u8 & 0x80 == 0 && 0x39u8 & 0x7F == 0x39) by (bit_vector);
}

/// Each letter key types the letter it names, in lower case, and each
/// digit key its digit.
pub proof fn lemma_letter_keys_type_their_letters()
    ensures
        key_char(Key::A) == Some('a'),
        key_char(Key::B) == Some('b'),
        key_char(Key::C) == Some('c'),
        key_char(Key::D) == Some('d'),
        key_char(Key::E) == Some('e'),
        key_char(Key::F) == Some('f'),
        key_char(Key::G) == Some('g'),
        key_char(Key::H) == Some('h'),
        key_char(Key::I) == Some('i'),
        key_char(Key::J) == Some('j'),
        key_char(Key::K) == Some('k'),
        key_char(Key::L) == Some('l'),
        key_char(Key::M) == Some('m'),
        key_char(Key::N) == Some('n'),
        key_char(Key::O) == Some('o'),
        key_char(Key::P) == Some('p'),
        key_char(Key::Q) == Some('q'),
        key_char(Key::R) == Some('r'),
        key_char(Key::S) == Some('s'),
        key_char(Key::T) == Some('t'),
        key_char(Key::U) == Some('u'),
        key_char(Key::V) == Some('v'),
        key_char(Key::W) == Some('w'),
        key_char(Key::X) == Some('x'),
        key_char(Key::Y) == Some('y'),
        key_char(Key::Z) == Some('z'),
        key_char(Key::Key0) == Some('0'),
        key_char(Key::Key1) == Some('1'),
        key_char(Key::Key2) == Some('2'),
        key_char(Key::Key3) == Some('3'),
        key_char(Key::Key4) == Some('4'),
        key_char(Key::Key5) == Some('5'),
        key_char(Key::Key6) == Some('6'),
        key_char(Key::Key7) == Some('7'),
        key_char(Key::Key8) == Some('8'),
        key_char(Key::Key9) == Some('9'),
{
}

/// Releasing a key (bit 0x80 set) types nothing, and pressing a key outside
/// the character rows and the keys beside them types nothing either.
pub proof fn lemma_other_codes_type_nothing()
    ensures
        forall|c: u8| c >= 0x80 ==> #[trigger] scancode_chars(c) == Seq::<char>::empty(),
        forall|c: u8|
            c < 0x80 && !(0x02 <= c <= 0x1C || 0x1E <= c <= 0x28 || 0x2B <= c <= 0x35 || c == 0x39)
                ==> #[trigger] scancode_chars(c) == Seq::<char>::empty(),
{
    assert forall|c: u8| c >= 0x80 implies c & 0x80 != 0 by {
        assert(c >= 0x80 ==> c & 0x80 != 0) by (bit_vector);
    }
    assert forall|c: u8| c < 0x80 implies c & 0x80 == 0 && c & 0x7F == c by {
        assert(c < 0x80 ==> c & 0x80 == 0 && c & 0x7F == c) by (bit_vector);
    }
}

/// The characters that `interrupts` type, in order.
pub open spec fn typed_chars(interrupts: Seq<HardwareInterrupt>) -> Seq<char>
    decreases interrupts.len(),
{
    if interrupts.len() == 0 {
        Seq::empty()
    } else {
        typed_chars(interrupts.drop_last()) + match interrupts.last() {
            HardwareInterrupt::Keyboard { scancode } => scancode_chars(scancode),
        }
    }
}

/// Handling the next interrupt of a queue adds what it types.
pub proof fn lemma_typed_chars_step(interrupts: Seq<HardwareInterrupt>, k: int)
    requires
        0 <= k < interrupts.len(),
    ensures
        typed_chars(interrupts.take(k + 1)) == typed_chars(interrupts.take(k)) + match interrupts[k] {
            HardwareInterrupt::Keyboard { scancode } => scancode_chars(scancode),
        },
{
    assert(interrupts.take(k + 1).drop_last() =~= interrupts.take(k));
}

/// Puts the character of a key press, given as a scan code of set 1, into
/// `buffer`. Releases (bit 0x80 set), unknown codes and keys without a
/// character are dropped.
pub fn handle_scancode(buffer: &mut KeyboardBuffer, scancode: u8)
    ensures
        final(buffer)@ == if scancode & 0x80 == 0 && scancode_key(scancode & 0x7F) is Some
            && key_char(scancode_key(scancode & 0x7F)->0) is Some {
            old(buffer)@.push(key_char(scancode_key(scancode & 0x7F)->0)->0)
        } else {
            old(buffer)@
        },
        final(buffer)@ == old(buffer)@ + scancode_chars(scancode),
{
    if scancode & 0x80 == 0 {
        if let Ok(key) = Key::from_scancode_set1(scancode) {
            let event = KeyboardEvent::from_key(key);
            if let Some(c) = event.char {
                buffer.push_key(c);
            }
        }
    }
}

} // verus!
