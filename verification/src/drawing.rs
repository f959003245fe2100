//! The parts of the drawing editor that are decisions rather than paint: which colour a
//! drawing's text names, how a drawing is cut into the layers it is painted in, and what the
//! tools and handles are.

use vstd::prelude::*;

use crate::language::ascii_lower;
use crate::project::{trim_text, trimmed};
use crate::text::{chars_of, string_of, string_of_prefix};

verus! {

/// A colour, as eight-bit red, green, blue and alpha.
#[derive(Clone, Copy, PartialEq, Eq, Structural, Debug)]
pub struct Rgba8 {
    /// Red.
    pub r: u8,
    /// Green.
    pub g: u8,
    /// Blue.
    pub b: u8,
    /// How solid it is.
    pub a: u8,
}

/// The value of one hex digit, when `c` is one.
pub open spec fn hex_value(c: char) -> Option<u8> {
    if '0' <= c && c <= '9' {
        Some((c as u32 - 48) as u8)
    } else if 'a' <= c && c <= 'f' {
        Some((c as u32 - 97 + 10) as u8)
    } else if 'A' <= c && c <= 'F' {
        Some((c as u32 - 65 + 10) as u8)
    } else {
        None
    }
}

/// The value one hex digit has.
pub fn hex_digit(c: char) -> (out: Option<u8>)
    ensures
        out == hex_value(c),
{
    if '0' <= c && c <= '9' {
        Some((c as u32 - 48) as u8)
    } else if 'a' <= c && c <= 'f' {
        Some((c as u32 - 97 + 10) as u8)
    } else if 'A' <= c && c <= 'F' {
        Some((c as u32 - 65 + 10) as u8)
    } else {
        None
    }
}

/// The colour a run of hex digits names: three or four digits each doubled, or six or eight as
/// pairs, the fourth component being alpha and fully solid when there is none.
pub open spec fn hex_rgba(hex: Seq<char>) -> Option<Rgba8> {
    if !(forall|i: int| 0 <= i < hex.len() ==> #[trigger] hex_value(hex[i]) is Some) {
        None
    } else {
        let d = |i: int| hex_value(hex[i]).unwrap() as int;
        if hex.len() == 3 {
            Some(Rgba8 { r: (d(0) * 17) as u8, g: (d(1) * 17) as u8, b: (d(2) * 17) as u8, a: 255 })
        } else if hex.len() == 4 {
            Some(Rgba8 { r: (d(0) * 17) as u8, g: (d(1) * 17) as u8, b: (d(2) * 17) as u8, a: (d(3) * 17) as u8 })
        } else if hex.len() == 6 {
            Some(Rgba8 { r: (d(0) * 16 + d(1)) as u8, g: (d(2) * 16 + d(3)) as u8, b: (d(4) * 16 + d(5)) as u8, a: 255 })
        } else if hex.len() == 8 {
            Some(
                Rgba8 {
                    r: (d(0) * 16 + d(1)) as u8,
                    g: (d(2) * 16 + d(3)) as u8,
                    b: (d(4) * 16 + d(5)) as u8,
                    a: (d(6) * 16 + d(7)) as u8,
                },
            )
        } else {
            None
        }
    }
}

/// The colour a run of hex digits names.
fn hex_color(hex: &Vec<char>) -> (out: Option<Rgba8>)
    ensures
        out == hex_rgba(hex@),
{
    let mut digits: Vec<u8> = Vec::new();
    let mut i: usize = 0;
    while i < hex.len()
        invariant
            i <= hex@.len(),
            digits@.len() == i,
            forall|k: int| 0 <= k < i ==> hex_value(hex@[k]) == Some(#[trigger] digits@[k]),
        decreases hex.len() - i,
    {
        match hex_digit(hex[i]) {
            Some(d) => digits.push(d),
            None => {
                assert(hex_value(hex@[i as int]) is None);
                return None;
            },
        }
        i = i + 1;
    }
    assert forall|k: int| 0 <= k < hex@.len() implies #[trigger] hex_value(hex@[k]) is Some by {
        assert(hex_value(hex@[k]) == Some(digits@[k]));
    }
    assert forall|k: int| 0 <= k < digits@.len() implies #[trigger] digits@[k] < 16 by {
        assert(hex_value(hex@[k]) == Some(digits@[k]));
    }
    let n = digits.len();
    if n == 3 {
        Some(Rgba8 { r: digits[0] * 17, g: digits[1] * 17, b: digits[2] * 17, a: 255 })
    } else if n == 4 {
        Some(Rgba8 { r: digits[0] * 17, g: digits[1] * 17, b: digits[2] * 17, a: digits[3] * 17 })
    } else if n == 6 {
        Some(Rgba8 { r: digits[0] * 16 + digits[1], g: digits[2] * 16 + digits[3], b: digits[4] * 16 + digits[5], a: 255 })
    } else if n == 8 {
        Some(
            Rgba8 {
                r: digits[0] * 16 + digits[1],
                g: digits[2] * 16 + digits[3],
                b: digits[4] * 16 + digits[5],
                a: digits[6] * 16 + digits[7],
            },
        )
    } else {
        None
    }
}

/// The few colours a file names by word, in any case.
pub open spec fn named_rgba(word: Seq<char>) -> Option<Rgba8> {
    let w = ascii_lower(word);
    if w == "black"@ {
        Some(Rgba8 { r: 0, g: 0, b: 0, a: 255 })
    } else if w == "white"@ {
        Some(Rgba8 { r: 255, g: 255, b: 255, a: 255 })
    } else if w == "red"@ {
        Some(Rgba8 { r: 255, g: 0, b: 0, a: 255 })
    } else if w == "green"@ {
        Some(Rgba8 { r: 0, g: 128, b: 0, a: 255 })
    } else if w == "blue"@ {
        Some(Rgba8 { r: 0, g: 0, b: 255, a: 255 })
    } else if w == "yellow"@ {
        Some(Rgba8 { r: 255, g: 255, b: 0, a: 255 })
    } else if w == "grey"@ || w == "gray"@ {
        Some(Rgba8 { r: 128, g: 128, b: 128, a: 255 })
    } else {
        None
    }
}

/// The colour `text` names, when it names one: `transparent` in any case is nothing at all, a
/// `#` starts hex digits, and otherwise it is one of the few colours named by word. White space
/// around it is passed over.
pub open spec fn colour_of(text: Seq<char>) -> Option<Rgba8> {
    let t = trimmed(text);
    if ascii_lower(t) == "transparent"@ {
        Some(Rgba8 { r: 0, g: 0, b: 0, a: 0 })
    } else if t.len() > 0 && t[0] == '#' {
        hex_rgba(t.skip(1))
    } else {
        named_rgba(t)
    }
}

/// The value the hex digits `hex` name, worked out digit by digit.
proof fn lemma_six_digits(hex: Seq<char>)
    requires
        hex.len() == 6,
        forall|i: int| 0 <= i < 6 ==> #[trigger] hex_value(hex[i]) is Some,
    ensures
        hex_rgba(hex) == Some(
            Rgba8 {
                r: (hex_value(hex[0]).unwrap() * 16 + hex_value(hex[1]).unwrap()) as u8,
                g: (hex_value(hex[2]).unwrap() * 16 + hex_value(hex[3]).unwrap()) as u8,
                b: (hex_value(hex[4]).unwrap() * 16 + hex_value(hex[5]).unwrap()) as u8,
                a: 255,
            },
        ),
{
}

/// A word, with white space around it passed over and capitals made small, that is not a hex
/// colour and not `transparent` is read as a named colour.
proof fn lemma_read_as_named(text: Seq<char>, name: Seq<char>)
    requires
        ascii_lower(trimmed(text)) == name,
        name.len() > 0,
        name[0] != '#',
        name != "transparent"@,
    ensures
        colour_of(text) == named_rgba(trimmed(text)),
{
    let t = trimmed(text);
    assert(ascii_lower(t)[0] == name[0]);
    if t.len() > 0 && t[0] == '#' {
        assert(ascii_lower(t)[0] == '#');
    }
}

/// `black` and `000000` name the same colour.
proof fn lemma_named_black(text: Seq<char>)
    requires
        ascii_lower(trimmed(text)) == "black"@,
    ensures
        colour_of(text) == hex_rgba("000000"@),
{
    reveal_strlit("black");
    reveal_strlit("white");
    reveal_strlit("red");
    reveal_strlit("green");
    reveal_strlit("blue");
    reveal_strlit("yellow");
    reveal_strlit("grey");
    reveal_strlit("gray");
    reveal_strlit("transparent");
    reveal_strlit("000000");
    assert("black"@.len() != "transparent"@.len());
    lemma_read_as_named(text, "black"@);
    let h = "000000"@;
    assert(('0' as u32) == 48 && ('8' as u32) == 56 && ('f' as u32) == 102);
    assert forall|i: int| 0 <= i < 6 implies #[trigger] hex_value(h[i]) is Some by {}
    lemma_six_digits(h);
    assert(hex_rgba(h) == Some(Rgba8 { r: 0, g: 0, b: 0, a: 255 }));
    assert(named_rgba(trimmed(text)) == Some(Rgba8 { r: 0, g: 0, b: 0, a: 255 }));
}

/// `white` and `ffffff` name the same colour.
proof fn lemma_named_white(text: Seq<char>)
    requires
        ascii_lower(trimmed(text)) == "white"@,
    ensures
        colour_of(text) == hex_rgba("ffffff"@),
{
    reveal_strlit("black");
    reveal_strlit("white");
    reveal_strlit("red");
    reveal_strlit("green");
    reveal_strlit("blue");
    reveal_strlit("yellow");
    reveal_strlit("grey");
    reveal_strlit("gray");
    reveal_strlit("transparent");
    reveal_strlit("ffffff");
    assert("white"@.len() != "transparent"@.len());
    assert("white"@ != "black"@) by {
        if "white"@.len() == "black"@.len() {
            assert("white"@[0] != "black"@[0]);
        }
    }
    assert("white"@ != "red"@) by {
        if "white"@.len() == "red"@.len() {
        }
    }
    assert("white"@ != "green"@) by {
        if "white"@.len() == "green"@.len() {
            assert("white"@[0] != "green"@[0]);
        }
    }
    assert("white"@ != "blue"@) by {
        if "white"@.len() == "blue"@.len() {
        }
    }
    assert("white"@ != "yellow"@) by {
        if "white"@.len() == "yellow"@.len() {
        }
    }
    assert("white"@ != "grey"@) by {
        if "white"@.len() == "grey"@.len() {
        }
    }
    assert("white"@ != "gray"@) by {
        if "white"@.len() == "gray"@.len() {
        }
    }
    lemma_read_as_named(text, "white"@);
    let h = "ffffff"@;
    assert(('0' as u32) == 48 && ('8' as u32) == 56 && ('f' as u32) == 102);
    assert forall|i: int| 0 <= i < 6 implies #[trigger] hex_value(h[i]) is Some by {}
    lemma_six_digits(h);
    assert(hex_rgba(h) == Some(Rgba8 { r: 255, g: 255, b: 255, a: 255 }));
    assert(named_rgba(trimmed(text)) == Some(Rgba8 { r: 255, g: 255, b: 255, a: 255 }));
}

/// `red` and `ff0000` name the same colour.
proof fn lemma_named_red(text: Seq<char>)
    requires
        ascii_lower(trimmed(text)) == "red"@,
    ensures
        colour_of(text) == hex_rgba("ff0000"@),
{
    reveal_strlit("black");
    reveal_strlit("white");
    reveal_strlit("red");
    reveal_strlit("green");
    reveal_strlit("blue");
    reveal_strlit("yellow");
    reveal_strlit("grey");
    reveal_strlit("gray");
    reveal_strlit("transparent");
    reveal_strlit("ff0000");
    assert("red"@.len() != "transparent"@.len());
    assert("red"@ != "black"@) by {
        if "red"@.len() == "black"@.len() {
        }
    }
    assert("red"@ != "white"@) by {
        if "red"@.len() == "white"@.len() {
        }
    }
    assert("red"@ != "green"@) by {
        if "red"@.len() == "green"@.len() {
        }
    }
    assert("red"@ != "blue"@) by {
        if "red"@.len() == "blue"@.len() {
        }
    }
    assert("red"@ != "yellow"@) by {
        if "red"@.len() == "yellow"@.len() {
        }
    }
    assert("red"@ != "grey"@) by {
        if "red"@.len() == "grey"@.len() {
        }
    }
    assert("red"@ != "gray"@) by {
        if "red"@.len() == "gray"@.len() {
        }
    }
    lemma_read_as_named(text, "red"@);
    let h = "ff0000"@;
    assert(('0' as u32) == 48 && ('8' as u32) == 56 && ('f' as u32) == 102);
    assert forall|i: int| 0 <= i < 6 implies #[trigger] hex_value(h[i]) is Some by {}
    lemma_six_digits(h);
    assert(hex_rgba(h) == Some(Rgba8 { r: 255, g: 0, b: 0, a: 255 }));
    assert(named_rgba(trimmed(text)) == Some(Rgba8 { r: 255, g: 0, b: 0, a: 255 }));
}

/// `green` and `008000` name the same colour.
proof fn lemma_named_green(text: Seq<char>)
    requires
        ascii_lower(trimmed(text)) == "green"@,
    ensures
        colour_of(text) == hex_rgba("008000"@),
{
    reveal_strlit("black");
    reveal_strlit("white");
    reveal_strlit("red");
    reveal_strlit("green");
    reveal_strlit("blue");
    reveal_strlit("yellow");
    reveal_strlit("grey");
    reveal_strlit("gray");
    reveal_strlit("transparent");
    reveal_strlit("008000");
    assert("green"@.len() != "transparent"@.len());
    assert("green"@[0] != "white"@[0]);
    assert("green"@ != "white"@);
    lemma_read_as_named(text, "green"@);
    let h = "008000"@;
    assert(('0' as u32) == 48 && ('8' as u32) == 56 && ('f' as u32) == 102);
    assert forall|i: int| 0 <= i < 6 implies #[trigger] hex_value(h[i]) is Some by {}
    lemma_six_digits(h);
    assert(hex_rgba(h) == Some(Rgba8 { r: 0, g: 128, b: 0, a: 255 }));
    assert(named_rgba(trimmed(text)) == Some(Rgba8 { r: 0, g: 128, b: 0, a: 255 }));
}

/// `blue` and `0000ff` name the same colour.
proof fn lemma_named_blue(text: Seq<char>)
    requires
        ascii_lower(trimmed(text)) == "blue"@,
    ensures
        colour_of(text) == hex_rgba("0000ff"@),
{
    reveal_strlit("black");
    reveal_strlit("white");
    reveal_strlit("red");
    reveal_strlit("green");
    reveal_strlit("blue");
    reveal_strlit("yellow");
    reveal_strlit("grey");
    reveal_strlit("gray");
    reveal_strlit("transparent");
    reveal_strlit("0000ff");
    assert("blue"@.len() != "transparent"@.len());
    assert("blue"@ != "black"@) by {
        if "blue"@.len() == "black"@.len() {
        }
    }
    assert("blue"@ != "white"@) by {
        if "blue"@.len() == "white"@.len() {
        }
    }
    assert("blue"@ != "red"@) by {
        if "blue"@.len() == "red"@.len() {
        }
    }
    assert("blue"@ != "green"@) by {
        if "blue"@.len() == "green"@.len() {
        }
    }
    assert("blue"@ != "yellow"@) by {
        if "blue"@.len() == "yellow"@.len() {
        }
    }
    assert("blue"@ != "grey"@) by {
        if "blue"@.len() == "grey"@.len() {
            assert("blue"@[0] != "grey"@[0]);
        }
    }
    assert("blue"@ != "gray"@) by {
        if "blue"@.len() == "gray"@.len() {
            assert("blue"@[0] != "gray"@[0]);
        }
    }
    lemma_read_as_named(text, "blue"@);
    let h = "0000ff"@;
    assert(('0' as u32) == 48 && ('8' as u32) == 56 && ('f' as u32) == 102);
    assert forall|i: int| 0 <= i < 6 implies #[trigger] hex_value(h[i]) is Some by {}
    lemma_six_digits(h);
    assert(hex_rgba(h) == Some(Rgba8 { r: 0, g: 0, b: 255, a: 255 }));
    assert(named_rgba(trimmed(text)) == Some(Rgba8 { r: 0, g: 0, b: 255, a: 255 }));
}

/// `yellow` and `ffff00` name the same colour.
proof fn lemma_named_yellow(text: Seq<char>)
    requires
        ascii_lower(trimmed(text)) == "yellow"@,
    ensures
        colour_of(text) == hex_rgba("ffff00"@),
{
    reveal_strlit("black");
    reveal_strlit("white");
    reveal_strlit("red");
    reveal_strlit("green");
    reveal_strlit("blue");
    reveal_strlit("yellow");
    reveal_strlit("grey");
    reveal_strlit("gray");
    reveal_strlit("transparent");
    reveal_strlit("ffff00");
    assert("yellow"@.len() != "transparent"@.len());
    assert("yellow"@ != "black"@) by {
        if "yellow"@.len() == "black"@.len() {
        }
    }
    assert("yellow"@ != "white"@) by {
        if "yellow"@.len() == "white"@.len() {
        }
    }
    assert("yellow"@ != "red"@) by {
        if "yellow"@.len() == "red"@.len() {
        }
    }
    assert("yellow"@ != "green"@) by {
        if "yellow"@.len() == "green"@.len() {
        }
    }
    assert("yellow"@ != "blue"@) by {
        if "yellow"@.len() == "blue"@.len() {
        }
    }
    assert("yellow"@ != "grey"@) by {
        if "yellow"@.len() == "grey"@.len() {
        }
    }
    assert("yellow"@ != "gray"@) by {
        if "yellow"@.len() == "gray"@.len() {
        }
    }
    lemma_read_as_named(text, "yellow"@);
    let h = "ffff00"@;
    assert(('0' as u32) == 48 && ('8' as u32) == 56 && ('f' as u32) == 102);
    assert forall|i: int| 0 <= i < 6 implies #[trigger] hex_value(h[i]) is Some by {}
    lemma_six_digits(h);
    assert(hex_rgba(h) == Some(Rgba8 { r: 255, g: 255, b: 0, a: 255 }));
    assert(named_rgba(trimmed(text)) == Some(Rgba8 { r: 255, g: 255, b: 0, a: 255 }));
}

/// `grey` and `808080` name the same colour.
proof fn lemma_named_grey(text: Seq<char>)
    requires
        ascii_lower(trimmed(text)) == "grey"@,
    ensures
        colour_of(text) == hex_rgba("808080"@),
{
    reveal_strlit("black");
    reveal_strlit("white");
    reveal_strlit("red");
    reveal_strlit("green");
    reveal_strlit("blue");
    reveal_strlit("yellow");
    reveal_strlit("grey");
    reveal_strlit("gray");
    reveal_strlit("transparent");
    reveal_strlit("808080");
    assert("grey"@.len() != "transparent"@.len());
    assert("grey"@ != "black"@) by {
        if "grey"@.len() == "black"@.len() {
        }
    }
    assert("grey"@ != "white"@) by {
        if "grey"@.len() == "white"@.len() {
        }
    }
    assert("grey"@ != "red"@) by {
        if "grey"@.len() == "red"@.len() {
        }
    }
    assert("grey"@ != "green"@) by {
        if "grey"@.len() == "green"@.len() {
        }
    }
    assert("grey"@ != "blue"@) by {
        if "grey"@.len() == "blue"@.len() {
            assert("grey"@[0] != "blue"@[0]);
        }
    }
    assert("grey"@ != "yellow"@) by {
        if "grey"@.len() == "yellow"@.len() {
        }
    }
    assert("grey"@ != "gray"@) by {
        if "grey"@.len() == "gray"@.len() {
            assert("grey"@[2] != "gray"@[2]);
        }
    }
    lemma_read_as_named(text, "grey"@);
    let h = "808080"@;
    assert(('0' as u32) == 48 && ('8' as u32) == 56 && ('f' as u32) == 102);
    assert forall|i: int| 0 <= i < 6 implies #[trigger] hex_value(h[i]) is Some by {}
    lemma_six_digits(h);
    assert(hex_rgba(h) == Some(Rgba8 { r: 128, g: 128, b: 128, a: 255 }));
    assert(named_rgba(trimmed(text)) == Some(Rgba8 { r: 128, g: 128, b: 128, a: 255 }));
}

/// `gray` and `808080` name the same colour.
proof fn lemma_named_gray(text: Seq<char>)
    requires
        ascii_lower(trimmed(text)) == "gray"@,
    ensures
        colour_of(text) == hex_rgba("808080"@),
{
    reveal_strlit("black");
    reveal_strlit("white");
    reveal_strlit("red");
    reveal_strlit("green");
    reveal_strlit("blue");
    reveal_strlit("yellow");
    reveal_strlit("grey");
    reveal_strlit("gray");
    reveal_strlit("transparent");
    reveal_strlit("808080");
    assert("gray"@.len() != "transparent"@.len());
    assert("gray"@ != "black"@) by {
        if "gray"@.len() == "black"@.len() {
        }
    }
    assert("gray"@ != "white"@) by {
        if "gray"@.len() == "white"@.len() {
        }
    }
    assert("gray"@ != "red"@) by {
        if "gray"@.len() == "red"@.len() {
        }
    }
    assert("gray"@ != "green"@) by {
        if "gray"@.len() == "green"@.len() {
        }
    }
    assert("gray"@ != "blue"@) by {
        if "gray"@.len() == "blue"@.len() {
            assert("gray"@[0] != "blue"@[0]);
        }
    }
    assert("gray"@ != "yellow"@) by {
        if "gray"@.len() == "yellow"@.len() {
        }
    }
    assert("gray"@ != "grey"@) by {
        if "gray"@.len() == "grey"@.len() {
            assert("gray"@[2] != "grey"@[2]);
        }
    }
    lemma_read_as_named(text, "gray"@);
    let h = "808080"@;
    assert(('0' as u32) == 48 && ('8' as u32) == 56 && ('f' as u32) == 102);
    assert forall|i: int| 0 <= i < 6 implies #[trigger] hex_value(h[i]) is Some by {}
    lemma_six_digits(h);
    assert(hex_rgba(h) == Some(Rgba8 { r: 128, g: 128, b: 128, a: 255 }));
    assert(named_rgba(trimmed(text)) == Some(Rgba8 { r: 128, g: 128, b: 128, a: 255 }));
}

/// Each colour a drawing names by word, in any case and with white space around it, is the
/// colour its hex writing names: red is `ff0000`, green `008000`, blue `0000ff`, and so on.
pub proof fn law_named_colours_are_their_hex(text: Seq<char>)
    ensures
        ascii_lower(trimmed(text)) == "black"@ ==> colour_of(text) == hex_rgba("000000"@),
        ascii_lower(trimmed(text)) == "white"@ ==> colour_of(text) == hex_rgba("ffffff"@),
        ascii_lower(trimmed(text)) == "red"@ ==> colour_of(text) == hex_rgba("ff0000"@),
        ascii_lower(trimmed(text)) == "green"@ ==> colour_of(text) == hex_rgba("008000"@),
        ascii_lower(trimmed(text)) == "blue"@ ==> colour_of(text) == hex_rgba("0000ff"@),
        ascii_lower(trimmed(text)) == "yellow"@ ==> colour_of(text) == hex_rgba("ffff00"@),
        ascii_lower(trimmed(text)) == "grey"@ ==> colour_of(text) == hex_rgba("808080"@),
        ascii_lower(trimmed(text)) == "gray"@ ==> colour_of(text) == hex_rgba("808080"@),
{
    if ascii_lower(trimmed(text)) == "black"@ {
        lemma_named_black(text);
    }
    if ascii_lower(trimmed(text)) == "white"@ {
        lemma_named_white(text);
    }
    if ascii_lower(trimmed(text)) == "red"@ {
        lemma_named_red(text);
    }
    if ascii_lower(trimmed(text)) == "green"@ {
        lemma_named_green(text);
    }
    if ascii_lower(trimmed(text)) == "blue"@ {
        lemma_named_blue(text);
    }
    if ascii_lower(trimmed(text)) == "yellow"@ {
        lemma_named_yellow(text);
    }
    if ascii_lower(trimmed(text)) == "grey"@ {
        lemma_named_grey(text);
    }
    if ascii_lower(trimmed(text)) == "gray"@ {
        lemma_named_gray(text);
    }
}

/// A short hex colour is its long form with each digit doubled: `#abc` is `#aabbcc`, and
/// `#abcd` is `#aabbccdd`.
pub proof fn law_short_hex_doubles_each_digit(hex: Seq<char>)
    requires
        hex.len() == 3 || hex.len() == 4,
    ensures
        hex_rgba(hex) == hex_rgba(
            if hex.len() == 3 {
                seq![hex[0], hex[0], hex[1], hex[1], hex[2], hex[2]]
            } else {
                seq![hex[0], hex[0], hex[1], hex[1], hex[2], hex[2], hex[3], hex[3]]
            },
        ),
{
    let long = if hex.len() == 3 {
        seq![hex[0], hex[0], hex[1], hex[1], hex[2], hex[2]]
    } else {
        seq![hex[0], hex[0], hex[1], hex[1], hex[2], hex[2], hex[3], hex[3]]
    };
    assert forall|i: int| 0 <= i < long.len() implies long[i] == hex[i / 2] by {}
    if forall|i: int| 0 <= i < hex.len() ==> #[trigger] hex_value(hex[i]) is Some {
        assert forall|i: int| 0 <= i < long.len() implies #[trigger] hex_value(long[i]) is Some by {
            assert(long[i] == hex[i / 2]);
        }
    } else {
        let k = choose|k: int| 0 <= k < hex.len() && !(hex_value(hex[k]) is Some);
        assert(long[2 * k] == hex[k]);
        assert(!(hex_value(long[2 * k]) is Some));
    }
}

/// The colour `text` names, when it names one.
pub fn parse(text: &str) -> (out: Option<Rgba8>)
    ensures
        out == colour_of(text@),
{
    let t = trim_text(text);
    let lowered = crate::language::lowered_text(string_of(t.as_slice()).as_str());
    if crate::text::same_text(lowered.as_str(), "transparent") {
        return Some(Rgba8 { r: 0, g: 0, b: 0, a: 0 });
    }
    if t.len() > 0 && t[0] == '#' {
        let mut hex: Vec<char> = Vec::new();
        let mut i: usize = 1;
        while i < t.len()
            invariant
                1 <= i <= t@.len(),
                hex@ == t@.subrange(1, i as int),
            decreases t.len() - i,
        {
            hex.push(t[i]);
            assert(hex@ =~= t@.subrange(1, i + 1));
            i = i + 1;
        }
        assert(hex@ =~= t@.skip(1));
        return hex_color(&hex);
    }
    let l = lowered.as_str();
    if crate::text::same_text(l, "black") {
        Some(Rgba8 { r: 0, g: 0, b: 0, a: 255 })
    } else if crate::text::same_text(l, "white") {
        Some(Rgba8 { r: 255, g: 255, b: 255, a: 255 })
    } else if crate::text::same_text(l, "red") {
        Some(Rgba8 { r: 255, g: 0, b: 0, a: 255 })
    } else if crate::text::same_text(l, "green") {
        Some(Rgba8 { r: 0, g: 128, b: 0, a: 255 })
    } else if crate::text::same_text(l, "blue") {
        Some(Rgba8 { r: 0, g: 0, b: 255, a: 255 })
    } else if crate::text::same_text(l, "yellow") {
        Some(Rgba8 { r: 255, g: 255, b: 0, a: 255 })
    } else if crate::text::same_text(l, "grey") || crate::text::same_text(l, "gray") {
        Some(Rgba8 { r: 128, g: 128, b: 128, a: 255 })
    } else {
        None
    }
}

/// What kind of thing an element of a drawing is, as far as cutting it into layers goes.
#[derive(Clone, Copy, PartialEq, Eq, Structural, Debug)]
pub enum Layer {
    /// Words.
    Text,
    /// A picture.
    Image,
    /// Anything else: a shape painted into a canvas.
    Shape,
}

/// An element of a drawing, as far as cutting it into layers goes.
#[derive(Clone, Copy, PartialEq, Eq, Structural, Debug)]
pub struct Element {
    /// What kind of thing it is.
    pub kind: Layer,
    /// Whether it has been rubbed out.
    pub is_deleted: bool,
}

/// One layer of the drawing.
#[derive(PartialEq, Eq, Debug)]
pub enum Band {
    /// A run of shapes, painted into one canvas.
    Shapes(core::ops::Range<usize>),
    /// One text element.
    Text(usize),
    /// One picture.
    Image(usize),
}

impl Band {
    /// Where in the drawing this band begins, which is what keeps it identified across a redraw.
    pub fn at(&self) -> (out: usize)
        ensures
            out == match self {
                Band::Shapes(range) => range.start,
                Band::Text(at) => *at,
                Band::Image(at) => *at,
            },
    {
        match self {
            Band::Shapes(range) => range.start,
            Band::Text(at) => *at,
            Band::Image(at) => *at,
        }
    }

    /// A number for what this band is, for a key that has to tell two apart.
    pub fn kind(&self) -> (out: u8)
        ensures
            out == match self {
                Band::Shapes(_) => 0u8,
                Band::Text(_) => 1u8,
                Band::Image(_) => 2u8,
            },
    {
        match self {
            Band::Shapes(_) => 0,
            Band::Text(_) => 1,
            Band::Image(_) => 2,
        }
    }
}

/// Cutting `elements` into bands, one element at a time: the bands finished so far, and the run
/// of shapes still open, as where it starts and ends.
pub open spec fn band_walk(elements: Seq<Element>) -> (Seq<Band>, Option<(usize, usize)>)
    decreases elements.len(),
{
    if elements.len() == 0 {
        (seq![], None)
    } else {
        let before = band_walk(elements.drop_last());
        let at = (elements.len() - 1) as usize;
        let e = elements.last();
        let visible = !e.is_deleted;
        if e.kind != Layer::Shape && visible {
            let closed = match before.1 {
                Some((start, end)) => before.0.push(Band::Shapes(start..end)),
                None => before.0,
            };
            (closed.push(if e.kind == Layer::Text { Band::Text(at) } else { Band::Image(at) }), None)
        } else if e.kind != Layer::Shape {
            before
        } else if visible {
            match before.1 {
                Some((start, _)) => (before.0, Some((start, (at + 1) as usize))),
                None => (before.0, Some((at, (at + 1) as usize))),
            }
        } else {
            before
        }
    }
}

/// The bands `elements` is painted in: a run of shapes per canvas, broken by each word and each
/// picture. A deleted element paints nothing and does not break the run around it.
pub open spec fn bands(elements: Seq<Element>) -> Seq<Band> {
    let walked = band_walk(elements);
    match walked.1 {
        Some((start, end)) => walked.0.push(Band::Shapes(start..end)),
        None => walked.0,
    }
}

/// The bands `elements` is painted in.
///
/// The bands depend only on the kinds and the order, so moving the view rebuilds nothing.
pub fn of(elements: &[Element]) -> (out: Vec<Band>)
    ensures
        out@ == bands(elements@),
{
    let mut out: Vec<Band> = Vec::new();
    let mut run: Option<(usize, usize)> = None;
    let mut at: usize = 0;
    while at < elements.len()
        invariant
            at <= elements@.len(),
            (out@, run) == band_walk(elements@.take(at as int)),
        decreases elements.len() - at,
    {
        assert(elements@.take(at + 1).drop_last() =~= elements@.take(at as int));
        let e = elements[at];
        let visible = !e.is_deleted;
        if e.kind != Layer::Shape && visible {
            if let Some((start, end)) = run {
                out.push(Band::Shapes(start..end));
            }
            if e.kind == Layer::Text {
                out.push(Band::Text(at));
            } else {
                out.push(Band::Image(at));
            }
            run = None;
        } else if e.kind != Layer::Shape {
        } else if visible {
            run = match run {
                Some((start, _)) => Some((start, at + 1)),
                None => Some((at, at + 1)),
            };
        }
        at = at + 1;
    }
    assert(elements@.take(elements@.len() as int) =~= elements@);
    if let Some((start, end)) = run {
        out.push(Band::Shapes(start..end));
    }
    out
}

/// Which surface a drawing is shown on.
#[derive(Clone, Copy, PartialEq, Eq, Structural, Debug)]
pub enum Scheme {
    /// A light one.
    Light,
    /// A dark one.
    Dark,
    /// Whichever the desktop asked for.
    System,
}

impl Default for Scheme {
    fn default() -> (out: Self)
        ensures
            out == Scheme::System,
    {
        Scheme::System
    }
}

impl Scheme {
    /// Whether the drawing is shown dark, given whether the desktop prefers dark: the scheme
    /// the host names wins over the desktop's.
    pub fn is_dark(self, prefers_dark: bool) -> (out: bool)
        ensures
            out == match self {
                Scheme::Light => false,
                Scheme::Dark => true,
                Scheme::System => prefers_dark,
            },
    {
        match self {
            Scheme::Light => false,
            Scheme::Dark => true,
            Scheme::System => prefers_dark,
        }
    }
}

/// Which tool the pointer is.
#[derive(Clone, Copy, PartialEq, Eq, Structural, Debug)]
pub enum Tool {
    /// Take hold of what is there.
    Select,
    /// Move the view.
    Hand,
    /// Draw a rectangle.
    Rectangle,
    /// Draw a diamond.
    Diamond,
    /// Draw an ellipse.
    Ellipse,
    /// Draw an arrow.
    Arrow,
    /// Draw a line.
    Line,
    /// Draw by hand.
    Freedraw,
    /// Write.
    Text,
    /// Place a picture.
    Image,
    /// Draw a frame.
    Frame,
    /// Rub out.
    Eraser,
}

impl Default for Tool {
    fn default() -> (out: Self)
        ensures
            out == Tool::Select,
    {
        Tool::Select
    }
}

/// The kinds of element a tool draws.
#[derive(Clone, Copy, PartialEq, Eq, Structural, Debug)]
pub enum Shape {
    /// A rectangle.
    Rectangle,
    /// A diamond.
    Diamond,
    /// An ellipse.
    Ellipse,
    /// An arrow.
    Arrow,
    /// A line.
    Line,
    /// A pen stroke.
    Freedraw,
    /// A picture.
    Image,
    /// A frame.
    Frame,
}

impl Tool {
    /// The kind of element this tool draws by dragging, when it draws one. Words are not among
    /// them: they are placed by one press, because there is no box to drag.
    pub fn kind(self) -> (out: Option<Shape>)
        ensures
            out == match self {
                Tool::Rectangle => Some(Shape::Rectangle),
                Tool::Diamond => Some(Shape::Diamond),
                Tool::Ellipse => Some(Shape::Ellipse),
                Tool::Arrow => Some(Shape::Arrow),
                Tool::Line => Some(Shape::Line),
                Tool::Freedraw => Some(Shape::Freedraw),
                Tool::Image => Some(Shape::Image),
                Tool::Frame => Some(Shape::Frame),
                _ => None,
            },
    {
        match self {
            Tool::Rectangle => Some(Shape::Rectangle),
            Tool::Diamond => Some(Shape::Diamond),
            Tool::Ellipse => Some(Shape::Ellipse),
            Tool::Arrow => Some(Shape::Arrow),
            Tool::Line => Some(Shape::Line),
            Tool::Freedraw => Some(Shape::Freedraw),
            Tool::Image => Some(Shape::Image),
            Tool::Frame => Some(Shape::Frame),
            _ => None,
        }
    }

    /// Whether it draws by dragging a box open.
    pub fn drags_a_box(self) -> (out: bool)
        ensures
            out == (self == Tool::Rectangle || self == Tool::Diamond || self == Tool::Ellipse || self == Tool::Frame
                || self == Tool::Image),
    {
        matches!(self, Tool::Rectangle | Tool::Diamond | Tool::Ellipse | Tool::Frame | Tool::Image)
    }

    /// Whether it draws by walking a run of points.
    pub fn walks_points(self) -> (out: bool)
        ensures
            out == (self == Tool::Arrow || self == Tool::Line),
    {
        matches!(self, Tool::Arrow | Tool::Line)
    }
}

/// Which handle a resize is dragging.
#[derive(Clone, Copy, PartialEq, Eq, Structural, Debug)]
pub struct Sides {
    /// Whether the left edge moves.
    pub left: bool,
    /// The right.
    pub right: bool,
    /// The top.
    pub top: bool,
    /// The bottom.
    pub bottom: bool,
}

/// The sides a handle at a corner moves.
pub fn corner(left: bool, right: bool, top: bool, bottom: bool) -> (out: Sides)
    ensures
        out == (Sides { left, right, top, bottom }),
{
    Sides { left, right, top, bottom }
}

/// Which handle a press took hold of.
#[derive(Clone, Copy, PartialEq, Eq, Structural, Debug)]
pub enum Grip {
    /// One that scales.
    Scale(Sides),
    /// The one that turns.
    Rotate,
}

/// Which keys were held when the pointer moved.
#[derive(Clone, Copy, PartialEq, Eq, Structural, Debug)]
pub struct Held {
    /// Whether shift was down, which constrains the gesture.
    pub shift: bool,
    /// Whether alt was, which works about the middle.
    pub alt: bool,
    /// Whether control or the meta key was, which adds to the selection.
    pub adding: bool,
    /// Whether the space bar was, which pans whatever the tool is.
    pub space: bool,
    /// Whether the press was the middle button, which pans too.
    pub middle: bool,
}

impl Default for Held {
    fn default() -> (out: Self)
        ensures
            !out.shift && !out.alt && !out.adding && !out.space && !out.middle,
    {
        Held { shift: false, alt: false, adding: false, space: false, middle: false }
    }
}

/// What a keystroke did to the words being typed.
#[derive(Clone, Copy, PartialEq, Eq, Structural, Debug)]
pub enum Typed {
    /// Nothing: no words are being typed, and the key is the drawing's.
    Idle,
    /// It was taken, and the words are still open.
    Taken,
    /// It finished them.
    Finished,
}

impl Tool {
    /// The word a tool is named by in the style sheet, which is what chooses the cursor.
    pub fn word(self) -> (out: &'static str)
        ensures
            out@ == match self {
                Tool::Select => "select"@,
                Tool::Hand => "hand"@,
                Tool::Rectangle => "rectangle"@,
                Tool::Diamond => "diamond"@,
                Tool::Ellipse => "ellipse"@,
                Tool::Arrow => "arrow"@,
                Tool::Line => "line"@,
                Tool::Freedraw => "freedraw"@,
                Tool::Text => "text"@,
                Tool::Image => "image"@,
                Tool::Frame => "frame"@,
                Tool::Eraser => "eraser"@,
            },
    {
        match self {
            Tool::Select => "select",
            Tool::Hand => "hand",
            Tool::Rectangle => "rectangle",
            Tool::Diamond => "diamond",
            Tool::Ellipse => "ellipse",
            Tool::Arrow => "arrow",
            Tool::Line => "line",
            Tool::Freedraw => "freedraw",
            Tool::Text => "text",
            Tool::Image => "image",
            Tool::Frame => "frame",
            Tool::Eraser => "eraser",
        }
    }
}

/// A key, as far as typing words goes.
#[derive(Clone, Debug)]
pub enum Key {
    /// Enter.
    Enter,
    /// Escape.
    Escape,
    /// Backspace.
    Backspace,
    /// The space bar.
    Space,
    /// A key that types what it says.
    Character(String),
    /// Any other key: the arrows, the function keys.
    Other,
}

/// What a key does to the words being typed.
#[derive(Clone, Debug)]
pub enum Edit {
    /// Nothing.
    Nothing,
    /// Put this in at the end.
    Insert(String),
    /// Take the last letter back out.
    Backspace,
    /// Put a line break in.
    Newline,
    /// Finish, keeping what was typed.
    Finish,
}

/// What a key does while words are being typed, or not: a key that means nothing to the words
/// is the drawing's; every other key, even one that does nothing, is the words'.
///
/// Enter with shift breaks the line and enter alone finishes, as escape does, so a stray enter
/// does not swallow a line.
pub fn key_edit(open: bool, key: &Key, shift: bool) -> (out: (Typed, Edit))
    ensures
        !open ==> out.0 == Typed::Idle && out.1 is Nothing,
        open ==> match key {
            Key::Enter => if shift {
                out.0 == Typed::Taken && out.1 is Newline
            } else {
                out.0 == Typed::Finished && out.1 is Finish
            },
            Key::Escape => out.0 == Typed::Finished && out.1 is Finish,
            Key::Backspace => out.0 == Typed::Taken && out.1 is Backspace,
            Key::Space => out.0 == Typed::Taken && (out.1 matches Edit::Insert(t) && t@ == seq![' ']),
            Key::Character(letter) => out.0 == Typed::Taken && (out.1 matches Edit::Insert(t) && t@ == letter@),
            Key::Other => out.0 == Typed::Taken && out.1 is Nothing,
        },
{
    if !open {
        return (Typed::Idle, Edit::Nothing);
    }
    match key {
        Key::Enter => if shift {
            (Typed::Taken, Edit::Newline)
        } else {
            (Typed::Finished, Edit::Finish)
        },
        Key::Escape => (Typed::Finished, Edit::Finish),
        Key::Backspace => (Typed::Taken, Edit::Backspace),
        Key::Space => {
            let mut space = String::new();
            crate::text::push_char(&mut space, ' ');
            (Typed::Taken, Edit::Insert(space))
        },
        Key::Character(letter) => (Typed::Taken, Edit::Insert(letter.clone())),
        Key::Other => (Typed::Taken, Edit::Nothing),
    }
}

/// Whether `c` is a control code, Unicode's general category `Cc`.
pub open spec fn is_control(c: char) -> bool {
    (c as u32) <= 0x1f || (0x7f <= (c as u32) && (c as u32) <= 0x9f)
}

/// The words after putting `text` in at the end of `typed`, or nothing when `text` is not taken:
/// nothing at all, or holding a control character, which is a key rather than a letter.
pub open spec fn typed_after_insert(typed: Seq<char>, text: Seq<char>) -> Option<Seq<char>> {
    if text.len() == 0 || exists|k: int| 0 <= k < text.len() && is_control(#[trigger] text[k]) {
        None
    } else {
        Some(typed + text)
    }
}

/// Puts `text` in at the end of `typed`, when it is taken.
pub fn insert_typed(typed: &str, text: &str) -> (out: Option<String>)
    ensures
        match out {
            Some(words) => typed_after_insert(typed@, text@) == Some(words@),
            None => typed_after_insert(typed@, text@) is None,
        },
{
    let cs = chars_of(text);
    if cs.len() == 0 {
        return None;
    }
    let mut i: usize = 0;
    while i < cs.len()
        invariant
            i <= cs@.len(),
            cs@ == text@,
            forall|k: int| 0 <= k < i ==> !is_control(#[trigger] cs@[k]),
        decreases cs.len() - i,
    {
        let n = cs[i] as u32;
        if n <= 0x1f || (0x7f <= n && n <= 0x9f) {
            return None;
        }
        i = i + 1;
    }
    let mut out = string_of(chars_of(typed).as_slice());
    crate::text::push_str(&mut out, text);
    Some(out)
}

/// Takes the last letter back out of `typed`, when there is one.
pub fn backspace_typed(typed: &str) -> (out: String)
    ensures
        out@ == if typed@.len() > 0 { typed@.drop_last() } else { typed@ },
{
    let cs = chars_of(typed);
    if cs.len() == 0 {
        return string_of(cs.as_slice());
    }
    let out = string_of_prefix(cs.as_slice(), cs.len() - 1);
    assert(cs@.take(cs@.len() - 1) =~= cs@.drop_last());
    out
}

/// Puts a line break in at the end of `typed`.
pub fn newline_typed(typed: &str) -> (out: String)
    ensures
        out@ == typed@.push('\n'),
{
    let mut out = string_of(chars_of(typed).as_slice());
    crate::text::push_char(&mut out, '\n');
    out
}

/// How a text element's lines sit across its box.
#[derive(Clone, Copy, PartialEq, Eq, Structural, Debug)]
pub enum TextAlign {
    /// Against the left edge.
    Left,
    /// In the middle.
    Center,
    /// Against the right edge.
    Right,
}

/// How a text element's lines sit down its box.
#[derive(Clone, Copy, PartialEq, Eq, Structural, Debug)]
pub enum VerticalAlign {
    /// Against the top.
    Top,
    /// In the middle.
    Middle,
    /// Against the bottom.
    Bottom,
}

/// The word a horizontal alignment is written as in a style sheet.
pub fn align_word(align: TextAlign) -> (out: &'static str)
    ensures
        out@ == match align {
            TextAlign::Left => "left"@,
            TextAlign::Center => "center"@,
            TextAlign::Right => "right"@,
        },
{
    match align {
        TextAlign::Left => "left",
        TextAlign::Center => "center",
        TextAlign::Right => "right",
    }
}

/// The same, for a vertical one: the word that places a column's contents.
pub fn vertical_word(align: VerticalAlign) -> (out: &'static str)
    ensures
        out@ == match align {
            VerticalAlign::Top => "flex-start"@,
            VerticalAlign::Middle => "center"@,
            VerticalAlign::Bottom => "flex-end"@,
        },
{
    match align {
        VerticalAlign::Top => "flex-start",
        VerticalAlign::Middle => "center",
        VerticalAlign::Bottom => "flex-end",
    }
}

} // verus!
