//! The ASCII bytes that paths and URIs give a meaning to.
use vstd::prelude::*;

verus! {

pub const PERCENT: u8 = 0x25;

pub const DASH: u8 = 0x2d;

pub const DOT: u8 = 0x2e;

pub const SLASH: u8 = 0x2f;

pub const COLON: u8 = 0x3a;

pub const QUESTION: u8 = 0x3f;

pub const UPPER_C: u8 = 0x43;

pub const UPPER_N: u8 = 0x4e;

pub const UPPER_U: u8 = 0x55;

pub const BACKSLASH: u8 = 0x5c;

pub const UNDERSCORE: u8 = 0x5f;

pub const TILDE: u8 = 0x7e;

/// `0` to `9`.
pub open spec fn is_digit(byte: u8) -> bool {
    0x30 <= byte <= 0x39
}

/// `A` to `Z`.
pub open spec fn is_upper(byte: u8) -> bool {
    0x41 <= byte <= 0x5a
}

/// `a` to `z`.
pub open spec fn is_lower(byte: u8) -> bool {
    0x61 <= byte <= 0x7a
}

pub open spec fn is_letter(byte: u8) -> bool {
    is_upper(byte) || is_lower(byte)
}

pub open spec fn upper_case(byte: u8) -> u8 {
    if is_lower(byte) {
        (byte - 0x20) as u8
    } else {
        byte
    }
}

pub fn letter(byte: u8) -> (yes: bool)
    ensures
        yes == is_letter(byte),
{
    (0x41 <= byte && byte <= 0x5a) || (0x61 <= byte && byte <= 0x7a)
}

pub fn digit(byte: u8) -> (yes: bool)
    ensures
        yes == is_digit(byte),
{
    0x30 <= byte && byte <= 0x39
}

pub fn to_upper_case(byte: u8) -> (upper: u8)
    ensures
        upper == upper_case(byte),
{
    if 0x61 <= byte && byte <= 0x7a {
        byte - 0x20
    } else {
        byte
    }
}

} // verus!
