//! Decoding of keyboard scan codes into keys. Reading the controller's
//! ports is left to the caller, which hands over the bytes it read.
use vstd::prelude::*;

verus! {

/// Status bit: a byte waits in the output buffer.
pub const OUTB: u8 = 0x01;
/// Status bit: the input buffer is still full.
pub const INPB: u8 = 0x02;
/// Status bit: the waiting byte comes from the mouse.
pub const AUXB: u8 = 0x20;
/// Command that sets the repeat rate and delay.
pub const SET_SPEED: u8 = 0xf3;
/// Set in the scan code of a key release.
pub const BREAK_BIT: u8 = 0x80;
pub const PREFIX1: u8 = 0xe0;
pub const PREFIX2: u8 = 0xe1;
/// Scan code of the escape key.
pub const ESCAPE: u8 = 1;

/// Characters of the scan codes below 89, German layout, no modifier.
pub const NORMAL_TAB: [u8; 89] = [
    0, 0, 49, 50, 51, 52, 53, 54, 55, 56, 57, 48, 225, 39, 0,
    0, 113, 119, 101, 114, 116, 122, 117, 105, 111, 112, 129, 43, 10,
    0, 97, 115, 100, 102, 103, 104, 106, 107, 108, 148, 132, 94, 0, 35,
    121, 120, 99, 118, 98, 110, 109, 44, 46, 45, 0,
    42, 0, 32, 0, 0, 0, 0, 0, 0, 0, 0, 0, 0, 0, 0, 0, 0, 0, 0, 45,
    0, 0, 0, 43, 0, 0, 0, 0, 0, 0, 0, 60, 0, 0,
];

/// A decoded key: its character, if `valid`.
#[derive(Debug, Clone, Copy, PartialEq, Eq, Structural)]
pub struct Key {
    pub valid: bool,
    pub ascii: u8,
}

impl Key {
    pub fn invalid() -> (r: Key)
        ensures
            !r.valid,
            r.ascii == 0,
    {
        Key { valid: false, ascii: 0 }
    }

    pub fn valid(&self) -> (r: bool)
        ensures
            r == self.valid,
    {
        self.valid
    }

    /// The key's character; `?` for one outside ASCII.
    pub fn ascii(&self) -> (r: char)
        requires
            self.valid,
        ensures
            self.ascii >= 128 ==> r == '?',
            self.ascii < 128 ==> r == self.ascii as char,
    {
        if self.ascii >= 128 {
            return '?';
        }
        self.ascii as char
    }

    fn set_ascii(&mut self, ascii: u8)
        ensures
            final(self).valid,
            final(self).ascii == ascii,
    {
        self.valid = true;
        self.ascii = ascii;
    }
}

/// Scan codes of the modifier and lock keys, which make no key.
pub open spec fn is_modifier(code: u8) -> bool {
    code == 42 || code == 54 || code == 56 || code == 29 || code == 58 || code == 70 || code == 69
}

/// Character of scan code `code` after `prefix`.
pub open spec fn char_of(prefix: u8, code: u8) -> u8 {
    if code == 53 && prefix == PREFIX1 {
        47
    } else {
        NORMAL_TAB@[code as int]
    }
}

/// Whether `code` makes a key: not a prefix, a release or a modifier.
pub open spec fn makes_key(code: u8) -> bool {
    code != PREFIX1 && code != PREFIX2 && code & BREAK_BIT == 0 && !is_modifier(code)
}

/// A waiting keyboard byte, as the status byte reports it.
pub open spec fn from_keyboard(status: u8) -> bool {
    status & OUTB != 0 && status & AUXB == 0
}

/// Whether `key_hit` can decode status `status` and scan code `code`: a
/// key's scan code must lie in the table.
pub fn decodable(status: u8, code: u8) -> (r: bool)
    ensures
        r == (from_keyboard(status) && makes_key(code) ==> code < 89),
{
    let key = (status & OUTB) != 0 && (status & AUXB) == 0 && code != PREFIX1 && code != PREFIX2
        && (code & BREAK_BIT) == 0 && !(code == 42 || code == 54 || code == 56 || code == 29 || code
        == 58 || code == 70 || code == 69);
    !key || code < 89
}

/// Decoder state: the prefix byte seen last, and the key gathered last.
pub struct Keyboard {
    pub initialized: bool,
    pub gather: Key,
    pub prefix: u8,
}

impl Keyboard {
    pub fn new() -> (r: Keyboard)
        ensures
            !r.initialized,
            r.prefix == 0,
            !r.gather.valid,
    {
        Keyboard { initialized: false, prefix: 0, gather: Key::invalid() }
    }

    /// Marks the keyboard ready, once the caller has drained the
    /// controller's buffer and set the repeat rate.
    pub fn init(&mut self)
        requires
            !old(self).initialized,
        ensures
            final(self).initialized,
            final(self).prefix == old(self).prefix,
            final(self).gather == old(self).gather,
    {
        self.initialized = true;
    }

    /// The key that status byte `status` and, when one waits, scan code
    /// `code` make; an invalid key when they make none.
    pub fn key_hit(&mut self, status: u8, code: u8) -> (r: Key)
        requires
            old(self).initialized,
            from_keyboard(status) && makes_key(code) ==> code < 89,
        ensures
            final(self).initialized,
            !from_keyboard(status) ==> !r.valid && r.ascii == 0 && *final(self) == *old(self),
            from_keyboard(status) && (code == PREFIX1 || code == PREFIX2) ==> r == (Key {
                valid: false,
                ascii: 0,
            }) && final(self).prefix == code,
            from_keyboard(status) && makes_key(code) ==> r == (Key { valid: true, ascii: char_of(old(self).prefix, code) })
                && final(self).prefix == 0 && final(self).gather == r,
            from_keyboard(status) && code != PREFIX1 && code != PREFIX2 && !makes_key(code) ==> r == (Key {
                valid: false,
                ascii: 0,
            }) && final(self).prefix == 0,
    {
        if (status & OUTB) != 0 {
            if (status & AUXB) == 0 {
                if self.key_decoded(code) {
                    return self.gather;
                }
            }
        }
        Key::invalid()
    }

    fn key_decoded(&mut self, code: u8) -> (r: bool)
        requires
            makes_key(code) ==> code < 89,
        ensures
            final(self).initialized == old(self).initialized,
            (code == PREFIX1 || code == PREFIX2) ==> !r && final(self).prefix == code,
            makes_key(code) ==> r && final(self).gather == (Key { valid: true, ascii: char_of(old(self).prefix, code) })
                && final(self).prefix == 0,
            code != PREFIX1 && code != PREFIX2 && !makes_key(code) ==> !r && final(self).prefix == 0,
    {
        if code == PREFIX1 || code == PREFIX2 {
            self.prefix = code;
            return false;
        }
        if (code & BREAK_BIT) != 0 {
            self.prefix = 0;
            return false;
        }
        let done = if code == 42 || code == 54 || code == 56 || code == 29 || code == 58 || code
            == 70 || code == 69 {
            false
        } else {
            self.compute_key(code);
            true
        };
        self.prefix = 0;
        done
    }

    fn compute_key(&mut self, code: u8)
        requires
            code < 89,
        ensures
            final(self).gather == (Key { valid: true, ascii: char_of(old(self).prefix, code) }),
            final(self).prefix == old(self).prefix,
            final(self).initialized == old(self).initialized,
    {
        if code == 53 && self.prefix == PREFIX1 {
            self.gather.set_ascii(47);
        } else {
            self.gather.set_ascii(NORMAL_TAB[code as usize]);
        }
    }
}

/// Data byte of the set-speed command: rate in the low bits, delay above.
pub fn repeat_rate_byte(speed: u8, delay: u8) -> (r: u8)
    requires
        speed <= 3,
        delay <= 31,
    ensures
        r == (speed | ((delay << 4u8) as u8)),
{
    speed | (delay << 4u8)
}

} // verus!
