//! Colours for rendering a maze as an image.

use crate::text::{decimal_text, push_decimal};
use vstd::prelude::*;

verus! {

/// A colour.
#[derive(Debug, PartialEq, Eq, Copy, Clone, Structural)]
pub enum Color {
    /// A colour given by its red, green and blue parts.
    RGB(u8, u8, u8),
}

impl Color {
    /// The text of a colour, such as `rgb(0, 10, 20)`.
    pub open spec fn text(&self) -> Seq<char> {
        match self {
            Color::RGB(r, g, b) => "rgb("@ + decimal_text(*r as nat) + ", "@ + decimal_text(
                *g as nat,
            ) + ", "@ + decimal_text(*b as nat) + ")"@,
        }
    }

    /// Returns the text of the colour.
    pub fn to_string(&self) -> (r: String)
        ensures
            r@ == self.text(),
    {
        match self {
            Color::RGB(r, g, b) => {
                let mut text = String::from_str("rgb(");
                push_decimal(&mut text, *r as usize);
                text.append(", ");
                push_decimal(&mut text, *g as usize);
                text.append(", ");
                push_decimal(&mut text, *b as usize);
                text.append(")");
                text
            },
        }
    }
}

/// Why a text is not a colour in hexadecimal notation.
#[derive(Debug, PartialEq, Eq)]
pub enum ParseHexError {
    /// The text holds something that is not a hexadecimal number.
    IntError,
    /// The text, given here without its leading `#`, does not have six
    /// characters.
    Length(String),
}

/// The value of a hexadecimal digit.
pub open spec fn hex_digit(c: char) -> Option<int> {
    if '0' <= c <= '9' {
        Some(c as int - '0' as int)
    } else if 'a' <= c <= 'f' {
        Some(c as int - 'a' as int + 10)
    } else if 'A' <= c <= 'F' {
        Some(c as int - 'A' as int + 10)
    } else {
        None
    }
}

/// The value of two characters as a hexadecimal number: two digits, or a
/// plus sign and one digit.
pub open spec fn hex_pair(a: char, b: char) -> Option<int> {
    match (hex_digit(a), hex_digit(b)) {
        (Some(hi), Some(lo)) => Some(16 * hi + lo),
        (None, Some(lo)) => if a == '+' {
            Some(lo)
        } else {
            None
        },
        _ => None,
    }
}

/// A text without its leading `#`, if it has one.
pub open spec fn without_hash(text: Seq<char>) -> Seq<char> {
    if text.len() > 0 && text[0] == '#' {
        text.subrange(1, text.len() as int)
    } else {
        text
    }
}

/// The colour that a text of six characters stands for.
pub open spec fn hex_color(digits: Seq<char>) -> Option<Color> {
    match (
        hex_pair(digits[0], digits[1]),
        hex_pair(digits[2], digits[3]),
        hex_pair(digits[4], digits[5]),
    ) {
        (Some(r), Some(g), Some(b)) => Some(Color::RGB(r as u8, g as u8, b as u8)),
        _ => None,
    }
}

/// Whether a text has the wrong length for a colour in hexadecimal notation.
pub open spec fn wrong_length(text: Seq<char>) -> bool {
    vstd::utf8::is_ascii_chars(text) && without_hash(text).len() != 6
}

/// The colour that a text in hexadecimal notation stands for, if it stands
/// for one.
pub open spec fn parse_hex(text: Seq<char>) -> Option<Color> {
    if vstd::utf8::is_ascii_chars(text) && without_hash(text).len() == 6 {
        hex_color(without_hash(text))
    } else {
        None
    }
}

/// Returns the value of a hexadecimal digit.
pub fn digit_value(c: char) -> (r: Option<u8>)
    ensures
        match r {
            Some(v) => hex_digit(c) == Some(v as int) && v < 16,
            None => hex_digit(c) is None,
        },
{
    if '0' <= c && c <= '9' {
        Some((c as u32 - '0' as u32) as u8)
    } else if 'a' <= c && c <= 'f' {
        Some((c as u32 - 'a' as u32 + 10) as u8)
    } else if 'A' <= c && c <= 'F' {
        Some((c as u32 - 'A' as u32 + 10) as u8)
    } else {
        None
    }
}

/// Returns the value of two characters as a hexadecimal number.
pub fn pair_value(a: char, b: char) -> (r: Option<u8>)
    ensures
        match r {
            Some(v) => hex_pair(a, b) == Some(v as int),
            None => hex_pair(a, b) is None,
        },
{
    match (digit_value(a), digit_value(b)) {
        (Some(hi), Some(lo)) => Some(16 * hi + lo),
        (None, Some(lo)) => if a == '+' {
            Some(lo)
        } else {
            None
        },
        _ => None,
    }
}

/// Reads a colour in hexadecimal notation, such as `#ff8800` or `ff8800`: an
/// optional `#` and three numbers of two hexadecimal digits for red, green and
/// blue. A text of another length is refused with the text it held; a text of
/// the right length with anything but hexadecimal numbers in it, or with
/// characters beyond ASCII, is refused as no number.
pub fn hex_to_rgb(s: &str) -> (r: Result<Color, ParseHexError>)
    ensures
        match r {
            Ok(color) => parse_hex(s@) == Some(color),
            Err(ParseHexError::Length(text)) => wrong_length(s@) && text@ == without_hash(s@),
            Err(ParseHexError::IntError) => parse_hex(s@) is None && !wrong_length(s@),
        },
{
    if !s.is_ascii() {
        return Err(ParseHexError::IntError);
    }
    let n = s.unicode_len();
    let start: usize = if n > 0 && s.get_char(0) == '#' {
        1
    } else {
        0
    };
    let digits = s.substring_ascii(start, n);
    assert(digits@ == without_hash(s@));
    if n - start != 6 {
        return Err(ParseHexError::Length(String::from_str(digits)));
    }
    let red = pair_value(digits.get_char(0), digits.get_char(1));
    let green = pair_value(digits.get_char(2), digits.get_char(3));
    let blue = pair_value(digits.get_char(4), digits.get_char(5));
    match (red, green, blue) {
        (Some(r), Some(g), Some(b)) => Ok(Color::RGB(r, g, b)),
        _ => Err(ParseHexError::IntError),
    }
}

} // verus!
