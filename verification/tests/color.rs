use knossos::color::{hex_to_rgb, Color, ParseHexError};

#[test]
fn display_color() {
    assert_eq!(Color::RGB(0, 10, 20).to_string(), format!("rgb(0, 10, 20)"));
}

#[test]
fn display_color_with_three_digits() {
    assert_eq!(Color::RGB(255, 100, 7).to_string(), "rgb(255, 100, 7)");
}

#[test]
fn hex_colors_are_read_with_and_without_hash() {
    use_hex("#000000", Color::RGB(0, 0, 0));
    use_hex("ffffff", Color::RGB(255, 255, 255));
    use_hex("#ff8800", Color::RGB(255, 136, 0));
    use_hex("#AbCdEf", Color::RGB(0xab, 0xcd, 0xef));
    use_hex("0a10fF", Color::RGB(10, 16, 255));
    use_hex("+a+0+f", Color::RGB(10, 0, 15));
}

fn use_hex(text: &str, expected: Color) {
    assert_eq!(hex_to_rgb(text), Ok(expected));
    let digits = text.strip_prefix('#').unwrap_or(text);
    let parts: Vec<u8> = (0..3)
        .map(|i| u8::from_str_radix(&digits[2 * i..2 * i + 2], 16).unwrap())
        .collect();
    assert_eq!(Color::RGB(parts[0], parts[1], parts[2]), expected);
}

#[test]
fn hex_colors_of_another_length_are_refused() {
    assert_eq!(hex_to_rgb("ff"), Err(ParseHexError::Length(String::from("ff"))));
    assert_eq!(hex_to_rgb("#ff"), Err(ParseHexError::Length(String::from("ff"))));
    assert_eq!(hex_to_rgb(""), Err(ParseHexError::Length(String::new())));
    assert_eq!(hex_to_rgb("#"), Err(ParseHexError::Length(String::new())));
    assert_eq!(hex_to_rgb("#1234567"), Err(ParseHexError::Length(String::from("1234567"))));
    assert_eq!(hex_to_rgb("##12345"), Err(ParseHexError::IntError));
    assert_eq!(hex_to_rgb("##123456"), Err(ParseHexError::Length(String::from("#123456"))));
}

#[test]
fn hex_colors_with_other_characters_are_refused() {
    assert_eq!(hex_to_rgb("ZZZZZZ"), Err(ParseHexError::IntError));
    assert_eq!(hex_to_rgb("#12345g"), Err(ParseHexError::IntError));
    assert_eq!(hex_to_rgb("12 456"), Err(ParseHexError::IntError));
    assert_eq!(hex_to_rgb("-12345"), Err(ParseHexError::IntError));
    assert_eq!(hex_to_rgb("1+2345"), Err(ParseHexError::IntError));
    assert_eq!(hex_to_rgb("++2345"), Err(ParseHexError::IntError));
    assert_eq!(hex_to_rgb("\u{e9}\u{e9}\u{e9}"), Err(ParseHexError::IntError));
}
