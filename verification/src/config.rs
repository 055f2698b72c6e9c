//! The theme: which style each part of the report is shown in.

use crate::number::{lemma_hex_fits, number, number_upto, parse_byte, parse_hex};
use crate::text::{ends_with, same_text, starts_with};
use crate::trim::{trim, trimmed_both};
use crate::utf8::{lemma_ascii_boundaries, lemma_prefix_chars_bytes, lemma_suffix_chars_bytes};
use vstd::prelude::*;
use vstd::slice::*;
use vstd::string::*;
use vstd::utf8::*;

verus! {

/// The configuration of a run.
#[derive(Clone, Debug)]
pub struct Config {
    pub theme: Theme,
}

/// The styles of the parts of the report.
#[derive(Clone, Debug)]
pub struct Theme {
    pub file_header: Option<Style>,
    pub file_name: Option<Style>,
    pub location: Option<Style>,
    pub message: Option<Style>,
    pub highlight_code: Option<Style>,
    pub code: Option<Style>,
    pub kinds: Kinds,
}

/// The styles of the item kinds, each under its configuration key.
#[derive(Clone, Debug)]
pub struct Kinds {
    pub associated_constant: Option<Style>,
    pub associated_function: Option<Style>,
    pub enumeration: Option<Style>,
    pub function: Option<Style>,
    pub method: Option<Style>,
    pub module: Option<Style>,
    pub structure: Option<Style>,
    pub struct_field: Option<Style>,
    pub traity: Option<Style>,
    pub variant: Option<Style>,
    pub the_crate: Option<Style>,
}

/// How a piece of text is shown.
#[derive(Copy, Clone, Debug, PartialEq)]
pub struct Style {
    pub color: Option<Color>,
    pub bold: bool,
    pub italic: bool,
    pub underline: bool,
    pub dimmed: bool,
}

/// A colour, as red, green and blue.
#[derive(Copy, Clone, Debug, PartialEq, Eq, Structural)]
pub struct Color(pub u8, pub u8, pub u8);

/// The hexadecimal digit of `value` that stands `place` digits from the
/// right.
pub open spec fn hex_digit(value: nat, place: nat) -> nat
    decreases place,
{
    if place == 0 {
        value % 16
    } else {
        hex_digit(value / 16, (place - 1) as nat)
    }
}

impl Color {
    /// The colour that three or four hexadecimal digits stand for.
    ///
    /// A value below `0x1000` is read as `RGB`, any other as `RGBA`, and the
    /// `A` is passed over.  Red and green each repeat their digit; blue is
    /// its digit followed by the digit of green.
    pub open spec fn of_u16(color: u16) -> Color {
        let shift: nat = if color < 0x1000 {
            0
        } else {
            1
        };
        let r = hex_digit(color as nat, 2 + shift);
        let g = hex_digit(color as nat, 1 + shift);
        let b = hex_digit(color as nat, shift);
        Color((16 * r + r) as u8, (16 * g + g) as u8, (16 * b + g) as u8)
    }

    /// Makes the colour that three or four hexadecimal digits stand for.
    pub fn from_u16(color: u16) -> (made: Self)
        ensures
            made == Self::of_u16(color),
    {
        let offset: u16 = if ((color >> 12) & 0xF) == 0 {
            4
        } else {
            0
        };
        let r = ((color >> (12 - offset)) & 0xF) as u8;
        let g = ((color >> (8 - offset)) & 0xF) as u8;
        let b = ((color >> (4 - offset)) & 0xF) as u8;
        proof {
            reveal_with_fuel(hex_digit, 5);
            assert((color >> 12) & 0xF == (color / 0x1000) % 16) by (bit_vector);
            assert((color >> 8) & 0xF == (color / 0x100) % 16) by (bit_vector);
            assert((color >> 4) & 0xF == (color / 0x10) % 16) by (bit_vector);
            assert((color >> 0) & 0xF == color % 16) by (bit_vector);
            assert((r << 4) | r == 16 * r + r) by (bit_vector)
                requires
                    r < 16,
            ;
            assert((g << 4) | g == 16 * g + g) by (bit_vector)
                requires
                    g < 16,
            ;
            assert((b << 4) | g == 16 * b + g) by (bit_vector)
                requires
                    b < 16,
                    g < 16,
            ;
        }
        Self((r << 4) | r, (g << 4) | g, (b << 4) | g)
    }
}

impl Default for Kinds {
    /// No kind has a style.
    fn default() -> (kinds: Self)
        ensures
            kinds == (Kinds {
                associated_constant: None,
                associated_function: None,
                enumeration: None,
                function: None,
                method: None,
                module: None,
                structure: None,
                struct_field: None,
                traity: None,
                variant: None,
                the_crate: None,
            }),
    {
        Kinds {
            associated_constant: None,
            associated_function: None,
            enumeration: None,
            function: None,
            method: None,
            module: None,
            structure: None,
            struct_field: None,
            traity: None,
            variant: None,
            the_crate: None,
        }
    }
}

impl Kinds {
    /// The style configured under `key`, if the key names a kind that has one.
    pub open spec fn style_of(self, key: Seq<char>) -> Option<Style> {
        if key == "associated_constant"@ {
            self.associated_constant
        } else if key == "associated_function"@ {
            self.associated_function
        } else if key == "enum"@ {
            self.enumeration
        } else if key == "function"@ {
            self.function
        } else if key == "method"@ {
            self.method
        } else if key == "module"@ {
            self.module
        } else if key == "struct"@ {
            self.structure
        } else if key == "struct_field"@ {
            self.struct_field
        } else if key == "trait"@ {
            self.traity
        } else if key == "variant"@ {
            self.variant
        } else if key == "the_crate"@ {
            self.the_crate
        } else {
            None
        }
    }

    /// Looks up the style configured under `key`.
    pub fn get(&self, key: &str) -> (style: Option<Style>)
        ensures
            style == self.style_of(key@),
    {
        if same_text(key, "associated_constant") {
            self.associated_constant
        } else if same_text(key, "associated_function") {
            self.associated_function
        } else if same_text(key, "enum") {
            self.enumeration
        } else if same_text(key, "function") {
            self.function
        } else if same_text(key, "method") {
            self.method
        } else if same_text(key, "module") {
            self.module
        } else if same_text(key, "struct") {
            self.structure
        } else if same_text(key, "struct_field") {
            self.struct_field
        } else if same_text(key, "trait") {
            self.traity
        } else if same_text(key, "variant") {
            self.variant
        } else if same_text(key, "the_crate") {
            self.the_crate
        } else {
            None
        }
    }
}

/// Why a text stands for no colour.
#[derive(Clone, Copy, Debug, PartialEq, Eq, Structural)]
pub enum ColorError {
    /// After `#` stand neither 3, 4, 6 nor 8 bytes.
    Syntax,
    /// After `#` stands something that is no hexadecimal number.
    Digit,
    /// The first number in `rgb(..)` is missing or no number up to 255.
    Red,
    /// The second number in `rgb(..)` is missing or no number up to 255.
    Blue,
    /// The third number in `rgb(..)` is missing or no number up to 255.
    Green,
    /// The text begins with neither `#` nor `rgb(`, or does not end with `)`.
    Unknown,
}

impl ColorError {
    /// What the error says.
    pub open spec fn message(self) -> Seq<char> {
        match self {
            ColorError::Syntax => "invalid syntax for color. rgb(r,g,b) or #RRGGBB or #RGB"@,
            ColorError::Digit => "invalid digit found in string"@,
            ColorError::Red => "invalid red channel"@,
            ColorError::Blue => "invalid blue channel"@,
            ColorError::Green => "invalid green channel"@,
            ColorError::Unknown => "invalid color"@,
        }
    }

    /// What the error says.
    pub fn describe(&self) -> (text: String)
        ensures
            text@ == self.message(),
    {
        match self {
            ColorError::Syntax => "invalid syntax for color. rgb(r,g,b) or #RRGGBB or #RGB".to_owned(),
            ColorError::Digit => "invalid digit found in string".to_owned(),
            ColorError::Red => "invalid red channel".to_owned(),
            ColorError::Blue => "invalid blue channel".to_owned(),
            ColorError::Green => "invalid green channel".to_owned(),
            ColorError::Unknown => "invalid color".to_owned(),
        }
    }
}

/// The number of bytes before the first comma, all bytes if there is none.
pub open spec fn first_comma(bytes: Seq<u8>) -> int
    decreases bytes.len(),
{
    if bytes.len() == 0 || bytes[0] == 0x2C {
        0
    } else {
        1 + first_comma(bytes.drop_first())
    }
}

/// The bytes before the first comma.
pub open spec fn piece(bytes: Seq<u8>) -> Seq<u8> {
    bytes.take(first_comma(bytes))
}

/// The bytes after the first comma, if there is one.
pub open spec fn following(bytes: Seq<u8>) -> Option<Seq<u8>> {
    if first_comma(bytes) < bytes.len() {
        Some(bytes.skip(first_comma(bytes) + 1))
    } else {
        None
    }
}

/// The channel that a piece between commas stands for: a decimal number up
/// to 255, with white space allowed around it.
pub open spec fn channel(bytes: Seq<u8>) -> Option<u8> {
    match number_upto(encode_utf8(trimmed_both(decode_utf8(bytes))), 10, 255) {
        Some(value) => Some(value as u8),
        None => None,
    }
}

/// The channel that the first piece of what is left stands for.
pub open spec fn next_channel(left: Option<Seq<u8>>) -> Option<u8> {
    match left {
        Some(bytes) => channel(piece(bytes)),
        None => None,
    }
}

/// What is left after the first piece of what is left.
pub open spec fn next_following(left: Option<Seq<u8>>) -> Option<Seq<u8>> {
    match left {
        Some(bytes) => following(bytes),
        None => None,
    }
}

/// The colour that the bytes between `rgb(` and `)` stand for.  The first
/// number is red, the second blue and the third green; what follows a third
/// comma is passed over.
pub open spec fn channels(inner: Seq<u8>) -> Result<Color, ColorError> {
    let second = following(inner);
    let third = next_following(second);
    match channel(piece(inner)) {
        None => Err(ColorError::Red),
        Some(r) => match next_channel(second) {
            None => Err(ColorError::Blue),
            Some(b) => match next_channel(third) {
                None => Err(ColorError::Green),
                Some(g) => Ok(Color(r, g, b)),
            },
        },
    }
}

/// The colour that the bytes after `#` stand for.  Three or four bytes are
/// read as by [`Color::of_u16`].  Six or eight bytes are read as one number,
/// whose three lowest bytes are red, green and blue.
pub open spec fn hex_color(digits: Seq<u8>) -> Result<Color, ColorError> {
    if digits.len() == 3 || digits.len() == 4 {
        match number(digits, 16) {
            Some(value) => Ok(Color::of_u16(value as u16)),
            None => Err(ColorError::Digit),
        }
    } else if digits.len() == 6 || digits.len() == 8 {
        match number(digits, 16) {
            Some(value) => Ok(
                Color(
                    (value / 0x10000 % 0x100) as u8,
                    (value / 0x100 % 0x100) as u8,
                    (value % 0x100) as u8,
                ),
            ),
            None => Err(ColorError::Digit),
        }
    } else {
        Err(ColorError::Syntax)
    }
}

/// The colour that a text stands for.
pub open spec fn color_of(text: Seq<char>) -> Result<Color, ColorError> {
    let bytes = encode_utf8(text);
    if bytes.len() > 0 && bytes[0] == 0x23 {
        hex_color(bytes.skip(1))
    } else if "rgb("@.is_prefix_of(text) && ")"@.is_suffix_of(text) {
        channels(bytes.subrange(4, bytes.len() - 1))
    } else {
        Err(ColorError::Unknown)
    }
}

/// Cuts a text at its first comma.
fn next_piece<'a>(text: &'a str) -> (cut: (&'a str, Option<&'a str>))
    ensures
        cut.0.spec_bytes() == piece(text.spec_bytes()),
        match cut.1 {
            Some(rest) => following(text.spec_bytes()) == Some(rest.spec_bytes()),
            None => following(text.spec_bytes()) is None,
        },
{
    let bytes = text.as_bytes();
    let mut at: usize = 0;
    assert(bytes@.skip(0) =~= bytes@);
    while at < bytes.len() && bytes[at] != 0x2C
        invariant
            at <= bytes@.len(),
            first_comma(bytes@) == at + first_comma(bytes@.skip(at as int)),
        decreases bytes@.len() - at,
    {
        assert(bytes@.skip(at as int).drop_first() =~= bytes@.skip(at + 1));
        at += 1;
    }
    if at == bytes.len() {
        return (text, None);
    }
    proof {
        encode_utf8_valid_utf8(text@);
        lemma_ascii_boundaries(bytes@, at as int);
    }
    let (first, tail) = text.split_at(at);
    proof {
        encode_utf8_valid_utf8(tail@);
        lemma_ascii_boundaries(tail.spec_bytes(), 0);
    }
    let (_, rest) = tail.split_at(1);
    (first, Some(rest))
}

/// Reads the channel that a piece between commas stands for.
fn channel_of(text: &str) -> (value: Option<u8>)
    ensures
        value == channel(text.spec_bytes()),
{
    proof {
        encode_utf8_decode_utf8(text@);
    }
    parse_byte(trim(text).as_bytes())
}

/// Reads the channel that the first piece of what is left stands for, and
/// cuts that piece off.
fn next_channel_of<'a>(left: Option<&'a str>) -> (read: (Option<u8>, Option<&'a str>))
    ensures
        read.0 == next_channel(
            match left {
                Some(text) => Some(text.spec_bytes()),
                None => None,
            },
        ),
        match read.1 {
            Some(rest) => next_following(
                match left {
                    Some(text) => Some(text.spec_bytes()),
                    None => None,
                },
            ) == Some(rest.spec_bytes()),
            None => next_following(
                match left {
                    Some(text) => Some(text.spec_bytes()),
                    None => None,
                },
            ) is None,
        },
{
    match left {
        None => (None, None),
        Some(text) => {
            let (first, rest) = next_piece(text);
            (channel_of(first), rest)
        },
    }
}

impl Color {
    /// Reads a colour from `#RGB`, `#RGBA`, `#RRGGBB`, `#RRGGBBAA` or
    /// `rgb(r, b, g)`.
    pub fn parse(input: &str) -> (read: Result<Self, ColorError>)
        ensures
            read == color_of(input@),
    {
        let bytes = input.as_bytes();
        if bytes.len() > 0 && bytes[0] == 0x23 {
            let digits = slice_subrange(bytes, 1, bytes.len());
            let len = digits.len();
            if len == 3 || len == 4 {
                return match parse_hex(digits) {
                    Some(value) => {
                        proof {
                            lemma_hex_fits(digits@);
                        }
                        Ok(Color::from_u16(value as u16))
                    },
                    None => {
                        proof {
                            if number(digits@, 16) is Some {
                                lemma_hex_fits(digits@);
                            }
                        }
                        Err(ColorError::Digit)
                    },
                };
            } else if len == 6 || len == 8 {
                return match parse_hex(digits) {
                    Some(value) => {
                        assert((value >> 16) & 0xFF == value / 0x10000 % 0x100) by (bit_vector);
                        assert((value >> 8) & 0xFF == value / 0x100 % 0x100) by (bit_vector);
                        assert(value & 0xFF == value % 0x100) by (bit_vector);
                        Ok(
                            Color(
                                ((value >> 16) & 0xFF) as u8,
                                ((value >> 8) & 0xFF) as u8,
                                (value & 0xFF) as u8,
                            ),
                        )
                    },
                    None => {
                        proof {
                            if number(digits@, 16) is Some {
                                lemma_hex_fits(digits@);
                            }
                        }
                        Err(ColorError::Digit)
                    },
                };
            } else {
                return Err(ColorError::Syntax);
            }
        }
        if starts_with(input, "rgb(") && ends_with(input, ")") {
            proof {
                reveal_strlit("rgb(");
                reveal_strlit(")");
                lemma_prefix_chars_bytes(input@, "rgb("@);
                lemma_suffix_chars_bytes(input@, ")"@);
                is_ascii_chars_encode_utf8("rgb("@);
                is_ascii_chars_encode_utf8(")"@);
                encode_utf8_valid_utf8(input@);
                let open = encode_utf8("rgb("@);
                assert(bytes@.subrange(0, 4)[3] == open[3]);
                lemma_ascii_boundaries(bytes@, 3);
                lemma_ascii_boundaries(bytes@, bytes@.len() - 1);
            }
            let (_, tail) = input.split_at(4);
            proof {
                encode_utf8_valid_utf8(tail@);
                lemma_ascii_boundaries(tail.spec_bytes(), tail.spec_bytes().len() - 1);
            }
            let (inner, _) = tail.split_at(tail.as_bytes().len() - 1);
            assert(inner.spec_bytes() =~= bytes@.subrange(4, bytes@.len() - 1));
            let (first, left) = next_piece(inner);
            let r = match channel_of(first) {
                Some(r) => r,
                None => {
                    return Err(ColorError::Red);
                },
            };
            let (second, left) = next_channel_of(left);
            let b = match second {
                Some(b) => b,
                None => {
                    return Err(ColorError::Blue);
                },
            };
            let (third, _) = next_channel_of(left);
            let g = match third {
                Some(g) => g,
                None => {
                    return Err(ColorError::Green);
                },
            };
            return Ok(Color(r, g, b));
        }
        Err(ColorError::Unknown)
    }
}

/// The character for a hexadecimal digit, in lower case.
pub open spec fn hex_char(digit: nat) -> char {
    if digit < 10 {
        (0x30 + digit) as u8 as char
    } else {
        (0x61 + digit - 10) as u8 as char
    }
}

/// The two hexadecimal digits of a byte.
pub open spec fn hex_pair(byte: u8) -> Seq<char> {
    seq![hex_char(byte as nat / 16), hex_char(byte as nat % 16)]
}

impl Color {
    /// The colour as `#rrggbb`.
    pub open spec fn hex_text(self) -> Seq<char> {
        seq!['#'] + hex_pair(self.0) + hex_pair(self.1) + hex_pair(self.2)
    }

    /// Writes the colour as `#rrggbb`.
    pub fn to_string(&self) -> (text: String)
        ensures
            text@ == self.hex_text(),
    {
        let mut text = "#".to_owned();
        proof {
            reveal_strlit("#");
        }
        push_pair(&mut text, self.0);
        push_pair(&mut text, self.1);
        push_pair(&mut text, self.2);
        text
    }
}

/// The text of one hexadecimal digit.
fn hex_str(digit: u8) -> (text: &'static str)
    requires
        digit < 16,
    ensures
        text@ == seq![hex_char(digit as nat)],
{
    proof {
        reveal_strlit("0");
        reveal_strlit("1");
        reveal_strlit("2");
        reveal_strlit("3");
        reveal_strlit("4");
        reveal_strlit("5");
        reveal_strlit("6");
        reveal_strlit("7");
        reveal_strlit("8");
        reveal_strlit("9");
        reveal_strlit("a");
        reveal_strlit("b");
        reveal_strlit("c");
        reveal_strlit("d");
        reveal_strlit("e");
        reveal_strlit("f");
    }
    let text = match digit {
        0 => "0",
        1 => "1",
        2 => "2",
        3 => "3",
        4 => "4",
        5 => "5",
        6 => "6",
        7 => "7",
        8 => "8",
        9 => "9",
        10 => "a",
        11 => "b",
        12 => "c",
        13 => "d",
        14 => "e",
        _ => "f",
    };
    text
}

/// Adds the two hexadecimal digits of a byte to a text.
fn push_pair(text: &mut String, byte: u8)
    ensures
        final(text)@ == old(text)@ + hex_pair(byte),
{
    text.append(hex_str(byte / 16));
    text.append(hex_str(byte % 16));
}

} // verus!
