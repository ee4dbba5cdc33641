//! Character classes of the HTTP/1.x grammar.
//!
//! Each class is a total predicate on a single byte.  The executable
//! predicates are specified by spec functions of the same meaning, and
//! [`ByteClass`] names the classes so that a run of bytes can be taken from
//! any of them.

use vstd::prelude::*;

verus! {

/// Horizontal tab.
pub const HT: u8 = 0x09;

/// Line feed.
pub const LF: u8 = 0x0a;

/// Carriage return.
pub const CR: u8 = 0x0d;

/// Space.
pub const SP: u8 = 0x20;

/// Full stop, which separates the parts of a version number.
pub const DOT: u8 = 0x2e;

/// Colon, which ends a header name.
pub const COLON: u8 = 0x3a;

/// The separators, none of which may occur in a token.
pub open spec fn separator_byte(c: u8) -> bool {
    ||| c == 0x22  // "
    ||| c == 0x28  // (
    ||| c == 0x29  // )
    ||| c == 0x2c  // ,
    ||| c == 0x2f  // /
    ||| 0x3a <= c <= 0x40  // : ; < = > ? @
    ||| 0x5b <= c <= 0x5e  // [ \ ] ^
    ||| c == 0x7b  // {
    ||| c == 0x7d  // }
}

/// A token byte is a visible ASCII byte that is no separator.  Space, tab and
/// every control byte lie outside the visible range.
pub open spec fn token_byte(c: u8) -> bool {
    0x21 <= c <= 0x7e && !separator_byte(c)
}

/// Any byte but carriage return and line feed.
pub open spec fn not_line_ending_byte(c: u8) -> bool {
    c != CR && c != LF
}

/// The space byte and no other.
pub open spec fn space_byte(c: u8) -> bool {
    c == SP
}

/// Space or horizontal tab.
pub open spec fn horizontal_space_byte(c: u8) -> bool {
    c == SP || c == HT
}

/// An ASCII digit or a full stop.
pub open spec fn version_byte(c: u8) -> bool {
    0x30 <= c <= 0x39 || c == DOT
}

/// Whether `c` may occur in a method or in a header name.
pub fn is_token(c: u8) -> (b: bool)
    ensures
        b == token_byte(c),
{
    c > 0x20 && c < 0x7f && c != 0x22 && c != 0x28 && c != 0x29 && c != 0x2c && c != 0x2f && !(c
        > 0x39 && c < 0x41) && !(c > 0x5a && c < 0x5f) && c != 0x7b && c != 0x7d
}

/// Whether `c` is neither carriage return nor line feed.
pub fn not_line_ending(c: u8) -> (b: bool)
    ensures
        b == not_line_ending_byte(c),
{
    c != CR && c != LF
}

/// Whether `c` is the space byte.
pub fn is_space(c: u8) -> (b: bool)
    ensures
        b == space_byte(c),
{
    c == SP
}

/// Whether `c` is anything but the space byte.
pub fn is_not_space(c: u8) -> (b: bool)
    ensures
        b == !space_byte(c),
{
    c != SP
}

/// Whether `c` is a space or a horizontal tab.
pub fn is_horizontal_space(c: u8) -> (b: bool)
    ensures
        b == horizontal_space_byte(c),
{
    c == SP || c == HT
}

/// Whether `c` may occur in a version number.
pub fn is_version(c: u8) -> (b: bool)
    ensures
        b == version_byte(c),
{
    c >= 0x30 && c <= 0x39 || c == DOT
}

/// The character classes from which the grammar takes runs of bytes.
#[derive(Clone, Copy, Debug, PartialEq, Eq)]
pub enum ByteClass {
    /// Bytes of a method or of a header name.
    Token,
    /// The space byte.
    Space,
    /// Every byte but the space byte.
    NotSpace,
    /// Space and horizontal tab.
    HorizontalSpace,
    /// Bytes of a version number.
    Version,
    /// Every byte but carriage return and line feed.
    NotLineEnding,
}

impl ByteClass {
    /// Membership of `c` in the class.
    pub open spec fn contains(self, c: u8) -> bool {
        match self {
            ByteClass::Token => token_byte(c),
            ByteClass::Space => space_byte(c),
            ByteClass::NotSpace => !space_byte(c),
            ByteClass::HorizontalSpace => horizontal_space_byte(c),
            ByteClass::Version => version_byte(c),
            ByteClass::NotLineEnding => not_line_ending_byte(c),
        }
    }

    /// Tests whether `c` belongs to the class.
    pub fn matches(self, c: u8) -> (b: bool)
        ensures
            b == self.contains(c),
    {
        match self {
            ByteClass::Token => is_token(c),
            ByteClass::Space => is_space(c),
            ByteClass::NotSpace => is_not_space(c),
            ByteClass::HorizontalSpace => is_horizontal_space(c),
            ByteClass::Version => is_version(c),
            ByteClass::NotLineEnding => not_line_ending(c),
        }
    }
}

} // verus!
