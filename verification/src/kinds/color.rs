//! Colours as the kind table writes them.

use vstd::prelude::*;

verus! {

/// What is wrong with a colour.
#[derive(Clone, Copy, Debug, PartialEq, Eq, Structural)]
pub enum ColorFault {
    /// Not a `#` and six characters.
    Shape,
    /// Six characters, but not all of them hexadecimal digits.
    Hex,
}

/// The value of a hexadecimal digit of either case.
pub open spec fn hex_value(c: char) -> Option<int> {
    if '0' <= c <= '9' {
        Some(c as int - '0' as int)
    } else if 'a' <= c <= 'f' {
        Some(c as int - 'a' as int + 10)
    } else if 'A' <= c <= 'F' {
        Some(c as int - 'A' as int + 10)
    } else {
        None
    }
}

/// Why `text` is not `#rrggbb`, if it is not.
pub open spec fn color_fault(text: Seq<char>) -> Option<ColorFault> {
    if text.len() != 7 || text[0] != '#' {
        Some(ColorFault::Shape)
    } else if exists|i: int| 1 <= i < 7 && #[trigger] hex_value(text[i]) is None {
        Some(ColorFault::Hex)
    } else {
        None
    }
}

/// Channel `i` of a `#rrggbb`.
pub open spec fn channel(text: Seq<char>, i: int) -> int {
    hex_value(text[1 + 2 * i])->0 * 16 + hex_value(text[2 + 2 * i])->0
}

fn hex_digit(c: char) -> (value: Option<u8>)
    ensures
        match hex_value(c) {
            Some(v) => value is Some && value->0 == v && v < 16,
            None => value is None,
        },
{
    let code: u32 = c as u32;
    if '0' <= c && c <= '9' {
        Some((code - '0' as u32) as u8)
    } else if 'a' <= c && c <= 'f' {
        Some((code - 'a' as u32 + 10) as u8)
    } else if 'A' <= c && c <= 'F' {
        Some((code - 'A' as u32 + 10) as u8)
    } else {
        None
    }
}

/// Reads a colour written as `#rrggbb`. Three-digit and named colours, and
/// colours without the `#`, are rejected.
pub fn parse_color(text: &str) -> (color: Result<[u8; 3], ColorFault>)
    ensures
        match color {
            Ok(rgb) => color_fault(text@) is None && forall|i: int|
                0 <= i < 3 ==> #[trigger] rgb@[i] == channel(text@, i),
            Err(fault) => color_fault(text@) == Some(fault),
        },
{
    if text.unicode_len() != 7 || text.get_char(0) != '#' {
        return Err(ColorFault::Shape);
    }
    let mut rgb: [u8; 3] = [0, 0, 0];
    for i in 0..3usize
        invariant
            text@.len() == 7,
            text@[0] == '#',
            rgb@.len() == 3,
            forall|j: int| 1 <= j < 1 + 2 * i ==> #[trigger] hex_value(text@[j]) is Some,
            forall|j: int| 0 <= j < i ==> #[trigger] rgb@[j] == channel(text@, j),
    {
        let high = hex_digit(text.get_char(1 + 2 * i));
        let low = hex_digit(text.get_char(2 + 2 * i));
        match (high, low) {
            (Some(h), Some(l)) => {
                rgb[i] = h * 16 + l;
            },
            _ => {
                assert(hex_value(text@[1 + 2 * i]) is None || hex_value(text@[2 + 2 * i]) is None);
                return Err(ColorFault::Hex);
            },
        }
        assert forall|j: int| 1 <= j < 1 + 2 * (i + 1) implies #[trigger] hex_value(
            text@[j],
        ) is Some by {
            if j >= 1 + 2 * i {
                assert(j == 1 + 2 * i || j == 2 + 2 * i);
            }
        }
    }
    Ok(rgb)
}

} // verus!
