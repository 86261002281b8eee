//! Reading `#RRGGBB` color codes.

use vstd::prelude::*;
use vstd::string::StringSliceAdditionalSpecFns;

verus! {

/// The value of an ASCII hexadecimal digit.
pub open spec fn hex_digit(b: u8) -> Option<int> {
    if 48 <= b <= 57 {
        Some(b - 48)
    } else if 97 <= b <= 102 {
        Some(b - 87)
    } else if 65 <= b <= 70 {
        Some(b - 55)
    } else {
        None
    }
}

/// The value of a two-character channel: two hexadecimal digits, or a `+` sign and
/// one digit.
pub open spec fn channel_value(a: u8, b: u8) -> Option<int> {
    if a == 43 {
        hex_digit(b)
    } else {
        match (hex_digit(a), hex_digit(b)) {
            (Some(x), Some(y)) => Some(16 * x + y),
            _ => None,
        }
    }
}

/// The channels of a color code given by its bytes: `#` and three channels, the first
/// not starting with another `#`.
pub open spec fn color_channels(bytes: Seq<u8>) -> Option<(u8, u8, u8)> {
    if bytes.len() == 7 && bytes[0] == 35 && bytes[1] != 35 {
        match (channel_value(bytes[1], bytes[2]), channel_value(bytes[3], bytes[4]), channel_value(bytes[5], bytes[6])) {
            (Some(r), Some(g), Some(b)) => Some((r as u8, g as u8, b as u8)),
            _ => None,
        }
    } else {
        None
    }
}

fn digit(b: u8) -> (d: Option<u8>)
    ensures
        match hex_digit(b) {
            Some(v) => d == Some(v as u8) && v < 16,
            None => d is None,
        },
{
    if 48 <= b && b <= 57 {
        Some(b - 48)
    } else if 97 <= b && b <= 102 {
        Some(b - 87)
    } else if 65 <= b && b <= 70 {
        Some(b - 55)
    } else {
        None
    }
}

fn channel(a: u8, b: u8) -> (c: Option<u8>)
    ensures
        match channel_value(a, b) {
            Some(v) => c == Some(v as u8) && v < 256,
            None => c is None,
        },
{
    if a == 43 {
        return digit(b);
    }
    match (digit(a), digit(b)) {
        (Some(x), Some(y)) => Some(16 * x + y),
        _ => None,
    }
}

/// The red, green and blue channels of a `#RRGGBB` code, or `None` when the code is
/// malformed.
pub fn hex_channels(hex: &str) -> (c: Option<(u8, u8, u8)>)
    ensures
        c == color_channels(hex.spec_bytes()),
{
    let bytes = hex.as_bytes();
    if bytes.len() != 7 || bytes[0] != 35 || bytes[1] == 35 {
        return None;
    }
    match (channel(bytes[1], bytes[2]), channel(bytes[3], bytes[4]), channel(bytes[5], bytes[6])) {
        (Some(r), Some(g), Some(b)) => Some((r, g, b)),
        _ => None,
    }
}

} // verus!
