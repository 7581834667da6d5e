//! Color configuration and tab naming.

use vstd::prelude::*;

use crate::number::{digits, unsigned_text};
use crate::text::chars_of;

verus! {

/// A color by its channels.
#[derive(Debug, Clone, Copy, PartialEq, Eq, Structural)]
pub struct Rgb {
    pub r: u8,
    pub g: u8,
    pub b: u8,
}

/// Color overrides from the `[colors]` section. Kept as raw strings so one
/// invalid value doesn't invalidate the whole config; resolution happens in
/// `color::Palette::with_overrides`.
#[derive(Debug, Clone, Default, PartialEq)]
pub struct Colors {
    pub foreground: Option<String>,
    pub background: Option<String>,
    pub cursor: Option<String>,
    pub selection_background: Option<String>,
    pub black: Option<String>,
    pub red: Option<String>,
    pub green: Option<String>,
    pub yellow: Option<String>,
    pub blue: Option<String>,
    pub magenta: Option<String>,
    pub cyan: Option<String>,
    pub white: Option<String>,
    pub bright_black: Option<String>,
    pub bright_red: Option<String>,
    pub bright_green: Option<String>,
    pub bright_yellow: Option<String>,
    pub bright_blue: Option<String>,
    pub bright_magenta: Option<String>,
    pub bright_cyan: Option<String>,
    pub bright_white: Option<String>,
}

/// Override strings for the 16 indexed slots, in palette order.
pub open spec fn indexed_colors(colors: Colors) -> Seq<Option<String>> {
    seq![
        colors.black,
        colors.red,
        colors.green,
        colors.yellow,
        colors.blue,
        colors.magenta,
        colors.cyan,
        colors.white,
        colors.bright_black,
        colors.bright_red,
        colors.bright_green,
        colors.bright_yellow,
        colors.bright_blue,
        colors.bright_magenta,
        colors.bright_cyan,
        colors.bright_white,
    ]
}

impl Colors {
    /// Override strings for the 16 indexed slots, in palette order.
    pub fn indexed(&self) -> (r: [&Option<String>; 16])
        ensures
            forall|i: int| 0 <= i < 16 ==> *(#[trigger] r@[i]) == indexed_colors(*self)[i],
    {
        let slots = [
            &self.black,
            &self.red,
            &self.green,
            &self.yellow,
            &self.blue,
            &self.magenta,
            &self.cyan,
            &self.white,
            &self.bright_black,
            &self.bright_red,
            &self.bright_green,
            &self.bright_yellow,
            &self.bright_blue,
            &self.bright_magenta,
            &self.bright_cyan,
            &self.bright_white,
        ];
        slots
    }
}

/// The value of a hexadecimal digit, if `c` is one.
pub open spec fn hex_value(c: char) -> Option<int> {
    if '0' <= c <= '9' {
        Some(c as int - 48)
    } else if 'a' <= c <= 'f' {
        Some(c as int - 87)
    } else if 'A' <= c <= 'F' {
        Some(c as int - 55)
    } else {
        None
    }
}

/// The color that a text denotes: `#` and six hexadecimal digits.
pub open spec fn hex_color(text: Seq<char>) -> Option<Rgb> {
    if text.len() == 7 && text[0] == '#' && forall|i: int|
        1 <= i < 7 ==> hex_value(#[trigger] text[i]) is Some {
        Some(
            Rgb {
                r: (hex_value(text[1])->0 * 16 + hex_value(text[2])->0) as u8,
                g: (hex_value(text[3])->0 * 16 + hex_value(text[4])->0) as u8,
                b: (hex_value(text[5])->0 * 16 + hex_value(text[6])->0) as u8,
            },
        )
    } else {
        None
    }
}

fn hex_digit(c: char) -> (r: Option<u8>)
    ensures
        match r {
            Some(v) => hex_value(c) == Some(v as int) && v < 16,
            None => hex_value(c) is None,
        },
{
    if '0' <= c && c <= '9' {
        Some((c as u32 - 48) as u8)
    } else if 'a' <= c && c <= 'f' {
        Some((c as u32 - 87) as u8)
    } else if 'A' <= c && c <= 'F' {
        Some((c as u32 - 55) as u8)
    } else {
        None
    }
}

/// Parse a `#RRGGBB` color string.
pub fn parse_hex_color(text: &str) -> (r: Option<Rgb>)
    ensures
        r == hex_color(text@),
{
    let chars = chars_of(text);
    if chars.len() != 7 || chars[0] != '#' {
        return None;
    }
    let mut values: Vec<u8> = Vec::new();
    let mut i: usize = 1;
    while i < 7
        invariant
            chars@ == text@,
            chars@.len() == 7,
            1 <= i <= 7,
            values@.len() == i - 1,
            forall|k: int|
                1 <= k < i ==> hex_value(#[trigger] text@[k]) == Some(values@[k - 1] as int)
                    && values@[k - 1] < 16,
        decreases 7 - i,
    {
        match hex_digit(chars[i]) {
            Some(v) => values.push(v),
            None => {
                proof {
                    assert(hex_value(text@[i as int]) is None);
                }
                return None;
            },
        }
        i += 1;
    }
    proof {
        assert(hex_value(text@[1]) is Some && hex_value(text@[2]) is Some && hex_value(text@[3])
            is Some && hex_value(text@[4]) is Some && hex_value(text@[5]) is Some && hex_value(
            text@[6],
        ) is Some);
    }
    Some(
        Rgb {
            r: values[0] * 16 + values[1],
            g: values[2] * 16 + values[3],
            b: values[4] * 16 + values[5],
        },
    )
}

/// Default tab title before the shell sets one via escape sequences.
pub fn default_tab_title(id: usize) -> (r: String)
    ensures
        r@ == "shell "@ + digits(id as nat),
{
    String::from_str("shell ").concat(unsigned_text(id as u64).as_str())
}

// ---------------------------------------------------------------------------
// Laws.

/// The hexadecimal digits in order.
pub open spec fn hex_digits() -> Seq<char> {
    seq!['0', '1', '2', '3', '4', '5', '6', '7', '8', '9', 'a', 'b', 'c', 'd', 'e', 'f']
}

/// The same with capital letters.
pub open spec fn capital_hex_digits() -> Seq<char> {
    seq!['0', '1', '2', '3', '4', '5', '6', '7', '8', '9', 'A', 'B', 'C', 'D', 'E', 'F']
}

/// The character writes the hexadecimal digit `d`, in either case.
pub open spec fn writes_digit(c: char, d: int) -> bool {
    0 <= d < 16 && (c == hex_digits()[d] || c == capital_hex_digits()[d])
}

proof fn lemma_hex_value(c: char, d: int)
    ensures
        writes_digit(c, d) ==> hex_value(c) == Some(d),
        hex_value(c) matches Some(v) ==> writes_digit(c, v),
{
}

/// `#` and six hexadecimal digits, in either case, are the color whose red,
/// green and blue are the numbers that two digits each write.
pub proof fn law_hex_digits_are_channels(text: Seq<char>, d: Seq<int>)
    requires
        text.len() == 7,
        text[0] == '#',
        d.len() == 6,
        forall|i: int| 1 <= i < 7 ==> writes_digit(#[trigger] text[i], d[i - 1]),
    ensures
        hex_color(text) matches Some(rgb) && rgb.r == 16 * d[0] + d[1] && rgb.g == 16 * d[2] + d[3]
            && rgb.b == 16 * d[4] + d[5],
{
    assert forall|i: int| 1 <= i < 7 implies hex_value(#[trigger] text[i]) == Some(d[i - 1])
        && 0 <= d[i - 1] < 16 by {
        lemma_hex_value(text[i], d[i - 1]);
    }
}

/// Any other text is no color: one of another length, one that does not start
/// with `#`, and one with a character after it that is no hexadecimal digit.
pub proof fn law_other_texts_are_no_color(text: Seq<char>, i: int)
    requires
        text.len() != 7 || text[0] != '#' || (1 <= i < 7 && forall|d: int|
            !#[trigger] writes_digit(text[i], d)),
    ensures
        hex_color(text) is None,
{
    if text.len() == 7 && text[0] == '#' {
        if let Some(v) = hex_value(text[i]) {
            lemma_hex_value(text[i], v);
            assert(writes_digit(text[i], v));
        }
    }
}

} // verus!
