//! A file's bytes as text, and text back as a file's bytes.
//!
//! Two things about a file are not in its text and have to survive a round trip anyway: how it is
//! encoded, and what it ends its lines with. Both are read on the way in, held beside the buffer,
//! and put back on the way out, so opening a CRLF file, editing one line and saving does not
//! rewrite every line in the file, and neither does opening a UTF-16 file.
//!
//! The buffer itself always holds text with `\n` breaks. Reading and writing the file are the
//! caller's part; what is here is the bytes in between.

use vstd::prelude::*;
use vstd::string::StrSliceExecFns;

use crate::text::{chars_of, lossy, push_char, string_of, utf8_lossy};

verus! {

/// How a file's bytes spell its text.
#[derive(Clone, Copy, PartialEq, Eq, Structural, Debug)]
pub enum Encoding {
    /// UTF-8, with no byte-order mark. What almost everything is.
    Utf8,
    /// UTF-8 behind a byte-order mark, which some Windows tools write and expect back.
    Utf8Bom,
    /// UTF-16, little-endian, behind its mark.
    Utf16Le,
    /// UTF-16, big-endian, behind its mark.
    Utf16Be,
}

impl Default for Encoding {
    fn default() -> (out: Self)
        ensures
            out == Encoding::Utf8,
    {
        Encoding::Utf8
    }
}

impl Encoding {
    /// How this is written in a status line.
    pub fn label(self) -> (out: &'static str)
        ensures
            out@ == match self {
                Encoding::Utf8 => "utf-8"@,
                Encoding::Utf8Bom => "utf-8-bom"@,
                Encoding::Utf16Le => "utf-16le"@,
                Encoding::Utf16Be => "utf-16be"@,
            },
    {
        match self {
            Encoding::Utf8 => "utf-8",
            Encoding::Utf8Bom => "utf-8-bom",
            Encoding::Utf16Le => "utf-16le",
            Encoding::Utf16Be => "utf-16be",
        }
    }
}

/// What a file breaks its lines with.
#[derive(Clone, Copy, PartialEq, Eq, Structural, Debug)]
pub enum LineEnding {
    /// One byte. Everything but Windows.
    Lf,
    /// Two. Windows, and files that have been through it.
    Crlf,
}

impl Default for LineEnding {
    fn default() -> (out: Self)
        ensures
            out == LineEnding::Lf,
    {
        LineEnding::Lf
    }
}

/// Where the first `c` in `text` is, or its length when there is none.
pub open spec fn first_of(text: Seq<char>, c: char) -> int
    decreases text.len(),
{
    if text.len() == 0 {
        0
    } else {
        let before = first_of(text.drop_last(), c);
        if before < text.len() - 1 {
            before
        } else if text.last() == c {
            text.len() - 1
        } else {
            text.len() as int
        }
    }
}

/// `first_of` is the first place `c` is, or past the end.
pub proof fn lemma_first_of(text: Seq<char>, c: char)
    ensures
        0 <= first_of(text, c) <= text.len(),
        first_of(text, c) < text.len() ==> text[first_of(text, c)] == c,
        forall|j: int| 0 <= j < first_of(text, c) ==> text[j] != c,
    decreases text.len(),
{
    if text.len() > 0 {
        lemma_first_of(text.drop_last(), c);
        assert forall|j: int| 0 <= j < first_of(text, c) implies text[j] != c by {
            if j < text.len() - 1 {
                assert(text[j] == text.drop_last()[j]);
            }
        }
    }
}

/// The line ending `text` uses, decided by its first break: CRLF when a carriage return is just
/// before it, LF otherwise and when there is no break.
pub open spec fn detected(text: Seq<char>) -> LineEnding {
    let k = first_of(text, '\n');
    if 0 < k < text.len() && text[k - 1] == '\r' {
        LineEnding::Crlf
    } else {
        LineEnding::Lf
    }
}

impl LineEnding {
    /// The characters it is.
    pub fn as_str(self) -> (out: &'static str)
        ensures
            out@ == match self {
                LineEnding::Lf => "\n"@,
                LineEnding::Crlf => "\r\n"@,
            },
    {
        match self {
            LineEnding::Lf => "\n",
            LineEnding::Crlf => "\r\n",
        }
    }

    /// How this is written in a status line.
    pub fn label(self) -> (out: &'static str)
        ensures
            out@ == match self {
                LineEnding::Lf => "LF"@,
                LineEnding::Crlf => "CRLF"@,
            },
    {
        match self {
            LineEnding::Lf => "LF",
            LineEnding::Crlf => "CRLF",
        }
    }

    /// Which one `text` uses, decided by the first break in it.
    ///
    /// The first rather than the most common: a file is one thing or the other, and a file that
    /// is genuinely mixed has already lost that argument. Saving normalises it.
    pub fn detect(text: &str) -> (out: LineEnding)
        ensures
            out == detected(text@),
    {
        let t = chars_of(text);
        let mut i: usize = 0;
        while i < t.len()
            invariant
                i <= t@.len(),
                t@ == text@,
                first_of(t@.take(i as int), '\n') == i,
            decreases t.len() - i,
        {
            assert(t@.take(i + 1).drop_last() =~= t@.take(i as int));
            if t[i] == '\n' {
                proof {
                    lemma_first_of(t@.take(i as int), '\n');
                    lemma_first_of(t@, '\n');
                    assert(forall|j: int| 0 <= j < i ==> t@[j] == #[trigger] t@.take(i as int)[j]);
                    let k = first_of(t@, '\n');
                    if k < i {
                        assert(t@.take(i as int)[k] == t@[k]);
                    }
                }
                if i > 0 && t[i - 1] == '\r' {
                    return LineEnding::Crlf;
                }
                return LineEnding::Lf;
            }
            i = i + 1;
        }
        assert(t@.take(i as int) =~= t@);
        LineEnding::Lf
    }
}

/// A file, read.
#[derive(Clone, Debug)]
pub struct LoadedFile {
    /// The text, with `\n` breaks.
    pub text: String,
    /// How the file spelled it.
    pub encoding: Encoding,
    /// What it broke its lines with.
    pub line_ending: LineEnding,
    /// Whether bytes had to be replaced to make the text valid.
    ///
    /// A file that reads as damaged is one this editor must not write back without being told to:
    /// saving would make the damage permanent.
    pub lossy: bool,
}

/// What went wrong reading or writing a file.
#[derive(Clone, Debug)]
pub enum FileError {
    /// The file could not be read or written.
    Io {
        /// Which file.
        path: String,
        /// What the system said.
        message: String,
    },
    /// The file is not text this editor can show.
    NotText {
        /// Which file.
        path: String,
    },
}

/// `text` with every `\n` written as `\r\n`.
pub open spec fn lf_to_crlf(text: Seq<char>) -> Seq<char>
    decreases text.len(),
{
    if text.len() == 0 {
        seq![]
    } else if text.last() == '\n' {
        lf_to_crlf(text.drop_last()) + seq!['\r', '\n']
    } else {
        lf_to_crlf(text.drop_last()).push(text.last())
    }
}

/// `text` with every `\r\n` written as `\n`.
pub open spec fn crlf_to_lf(text: Seq<char>) -> Seq<char>
    decreases text.len(),
{
    if text.len() == 0 {
        seq![]
    } else if text.len() >= 2 && text.last() == '\n' && text[text.len() - 2] == '\r' {
        crlf_to_lf(text.take(text.len() - 2)).push('\n')
    } else {
        crlf_to_lf(text.drop_last()).push(text.last())
    }
}

/// The encoding a byte-order mark at the start of `bytes` declares, and how long the mark is.
pub open spec fn sniffed(bytes: Seq<u8>) -> (Encoding, int) {
    if bytes.len() >= 3 && bytes[0] == 0xEF && bytes[1] == 0xBB && bytes[2] == 0xBF {
        (Encoding::Utf8Bom, 3)
    } else if bytes.len() >= 2 && bytes[0] == 0xFF && bytes[1] == 0xFE {
        (Encoding::Utf16Le, 2)
    } else if bytes.len() >= 2 && bytes[0] == 0xFE && bytes[1] == 0xFF {
        (Encoding::Utf16Be, 2)
    } else {
        (Encoding::Utf8, 0)
    }
}

/// The 16-bit units in `body`, two bytes each, a last odd byte left over.
pub open spec fn units_of(body: Seq<u8>, big: bool) -> Seq<u16>
    decreases body.len(),
{
    if body.len() < 2 {
        seq![]
    } else {
        let unit = if big { body[0] as int * 256 + body[1] as int } else { body[1] as int * 256 + body[0] as int };
        seq![unit as u16] + units_of(body.skip(2), big)
    }
}

/// Whether `u` is the first half of a surrogate pair.
pub open spec fn is_high(u: u16) -> bool {
    0xD800 <= u <= 0xDBFF
}

/// Whether `u` is the second half of a surrogate pair.
pub open spec fn is_low(u: u16) -> bool {
    0xDC00 <= u <= 0xDFFF
}

/// The first character UTF-16 `units` spell, `None` for a surrogate with no partner, and how
/// many units it takes.
pub open spec fn utf16_first(units: Seq<u16>) -> (Option<char>, int) {
    if units.len() >= 2 && is_high(units[0]) && is_low(units[1]) {
        (Some((0x10000 + (units[0] - 0xD800) * 0x400 + (units[1] - 0xDC00)) as char), 2)
    } else if is_high(units[0]) || is_low(units[0]) {
        (None, 1)
    } else {
        (Some(units[0] as char), 1)
    }
}

/// The text UTF-16 `units` spell, each surrogate with no partner read as U+FFFD.
pub open spec fn utf16_text(units: Seq<u16>) -> Seq<char>
    decreases units.len(),
{
    if units.len() == 0 {
        seq![]
    } else {
        let first = utf16_first(units);
        seq![
            match first.0 {
                Some(c) => c,
                None => '\u{FFFD}',
            },
        ] + utf16_text(units.skip(first.1))
    }
}

/// Whether every surrogate in `units` has its partner.
pub open spec fn utf16_valid(units: Seq<u16>) -> bool
    decreases units.len(),
{
    if units.len() == 0 {
        true
    } else {
        let first = utf16_first(units);
        first.0 is Some && utf16_valid(units.skip(first.1))
    }
}

/// The text a file's bytes decode to, and whether anything had to be replaced on the way.
pub open spec fn decoded_text(bytes: Seq<u8>) -> (Seq<char>, bool) {
    let sniff = sniffed(bytes);
    let body = bytes.skip(sniff.1);
    match sniff.0 {
        Encoding::Utf8 | Encoding::Utf8Bom => {
            if vstd::utf8::valid_utf8(body) {
                (vstd::utf8::decode_utf8(body), false)
            } else {
                (utf8_lossy(body), true)
            }
        },
        _ => {
            let units = units_of(body, sniff.0 == Encoding::Utf16Be);
            (utf16_text(units), !utf16_valid(units))
        },
    }
}

/// A surrogate with no partner shows as U+FFFD.
proof fn lemma_utf16_replaced(units: Seq<u16>)
    requires
        !utf16_valid(units),
    ensures
        utf16_text(units).contains('\u{FFFD}'),
    decreases units.len(),
{
    let first = utf16_first(units);
    let rest = units.skip(first.1);
    let text = utf16_text(units);
    if first.0 is None {
        assert(text[0] == '\u{FFFD}');
    } else {
        lemma_utf16_replaced(rest);
        let k = choose|k: int| 0 <= k < utf16_text(rest).len() && utf16_text(rest)[k] == '\u{FFFD}';
        assert(text[k + 1] == utf16_text(rest)[k]);
    }
}

/// Making breaks `\n` keeps every character other than a carriage return.
proof fn lemma_crlf_keeps(text: Seq<char>, c: char)
    requires
        text.contains(c),
        c != '\r',
    ensures
        crlf_to_lf(text).contains(c),
    decreases text.len(),
{
    let k = choose|k: int| 0 <= k < text.len() && text[k] == c;
    let out = crlf_to_lf(text);
    if text.len() >= 2 && text.last() == '\n' && text[text.len() - 2] == '\r' {
        let front = text.take(text.len() - 2);
        if k < text.len() - 2 {
            assert(front[k] == c);
            lemma_crlf_keeps(front, c);
            let j = choose|j: int| 0 <= j < crlf_to_lf(front).len() && crlf_to_lf(front)[j] == c;
            assert(out[j] == c);
        } else {
            assert(out.last() == '\n');
        }
    } else {
        let front = text.drop_last();
        if k < text.len() - 1 {
            assert(front[k] == c);
            lemma_crlf_keeps(front, c);
            let j = choose|j: int| 0 <= j < crlf_to_lf(front).len() && crlf_to_lf(front)[j] == c;
            assert(out[j] == c);
        } else {
            assert(out.last() == c);
        }
    }
}

/// Whether `out` is what decoding `bytes` read from `path` comes to: refused as not text when
/// the decoded text holds a zero, else the text with its breaks made `\n`, the encoding the mark
/// declared, the line ending its first break used, and whether anything was replaced.
pub open spec fn decodes_to(bytes: Seq<u8>, path: Seq<char>, out: Result<LoadedFile, FileError>) -> bool {
    let (text, damaged) = decoded_text(bytes);
    if text.contains('\0') {
        out matches Err(FileError::NotText { path: p }) && p@ == path
    } else {
        out matches Ok(file) && file.encoding == sniffed(bytes).0 && file.line_ending == detected(text)
            && file.lossy == damaged && file.text@ == match detected(text) {
            LineEnding::Lf => text,
            LineEnding::Crlf => crlf_to_lf(text),
        }
    }
}

/// Whether `bytes` are valid UTF-8.
///
/// Calls `std::str::from_utf8`, which is documented to succeed exactly on valid UTF-8; trusted to
/// agree with `valid_utf8`.
#[verifier::external_body]
fn utf8_ok(bytes: &[u8]) -> (out: bool)
    ensures
        out == vstd::utf8::valid_utf8(bytes@),
{
    std::str::from_utf8(bytes).is_ok()
}

/// The character with scalar value `n`, when there is one.
///
/// Calls `char::from_u32`, documented to give `None` exactly when `n` is not a Unicode scalar
/// value.
#[verifier::external_body]
fn char_from(n: u32) -> (out: Option<char>)
    ensures
        vstd::utf8::is_scalar(n) ==> out == Some(n as char),
        !vstd::utf8::is_scalar(n) ==> out is None,
{
    char::from_u32(n)
}

/// The bytes of `bytes` from `start` on.
fn tail(bytes: &[u8], start: usize) -> (out: Vec<u8>)
    requires
        start <= bytes@.len(),
    ensures
        out@ == bytes@.skip(start as int),
{
    let mut out: Vec<u8> = Vec::new();
    let mut i: usize = start;
    while i < bytes.len()
        invariant
            start <= i <= bytes@.len(),
            out@ == bytes@.subrange(start as int, i as int),
        decreases bytes.len() - i,
    {
        out.push(bytes[i]);
        assert(out@ =~= bytes@.subrange(start as int, i + 1));
        i = i + 1;
    }
    assert(out@ =~= bytes@.skip(start as int));
    out
}

/// The 16-bit units in `body`.
fn units_in(body: &Vec<u8>, big: bool) -> (out: Vec<u16>)
    ensures
        out@ == units_of(body@, big),
{
    let mut out: Vec<u16> = Vec::new();
    let mut i: usize = 0;
    assert(body@.skip(0) =~= body@);
    assert(out@ + units_of(body@, big) =~= units_of(body@, big));
    while i + 1 < body.len()
        invariant
            i <= body@.len(),
            i % 2 == 0,
            out@ + units_of(body@.skip(i as int), big) == units_of(body@, big),
        decreases body.len() - i,
    {
        let ghost rest = body@.skip(i as int);
        assert(rest.skip(2) =~= body@.skip(i + 2));
        let unit: u16 = if big {
            body[i] as u16 * 256 + body[i + 1] as u16
        } else {
            body[i + 1] as u16 * 256 + body[i] as u16
        };
        assert(rest[0] == body@[i as int] && rest[1] == body@[i + 1]);
        out.push(unit);
        assert(units_of(rest, big) == seq![unit] + units_of(body@.skip(i + 2), big));
        assert(out@ + units_of(body@.skip(i + 2), big) =~= units_of(body@, big));
        i = i + 2;
    }
    assert(units_of(body@.skip(i as int), big) == Seq::<u16>::empty());
    assert(out@ =~= units_of(body@, big));
    out
}

/// The text UTF-16 `units` spell, and whether every surrogate had its partner.
fn utf16_decode(units: &Vec<u16>) -> (out: (Vec<char>, bool))
    ensures
        out.0@ == utf16_text(units@),
        out.1 == utf16_valid(units@),
{
    let mut text: Vec<char> = Vec::new();
    let mut valid = true;
    let mut i: usize = 0;
    assert(units@.skip(0) =~= units@);
    assert(text@ + utf16_text(units@) =~= utf16_text(units@));
    while i < units.len()
        invariant
            i <= units@.len(),
            text@ + utf16_text(units@.skip(i as int)) == utf16_text(units@),
            utf16_valid(units@) == (valid && utf16_valid(units@.skip(i as int))),
        decreases units.len() - i,
    {
        let ghost rest = units@.skip(i as int);
        let u = units[i];
        assert(rest[0] == u);
        let (c, width): (Option<char>, usize) = if 0xD800 <= u && u <= 0xDBFF && i + 1 < units.len() && 0xDC00
            <= units[i + 1] && units[i + 1] <= 0xDFFF {
            let lo = units[i + 1];
            assert(rest[1] == lo);
            let n: u32 = 0x10000 + (u as u32 - 0xD800) * 0x400 + (lo as u32 - 0xDC00);
            (char_from(n), 2)
        } else if 0xD800 <= u && u <= 0xDFFF {
            (None, 1)
        } else {
            (char_from(u as u32), 1)
        };
        proof {
            let first = utf16_first(rest);
            if width == 2 {
                let n = (0x10000 + (u - 0xD800) * 0x400 + (rest[1] - 0xDC00)) as u32;
                assert(vstd::utf8::is_scalar(n));
            } else if !(0xD800 <= u && u <= 0xDFFF) {
                assert(vstd::utf8::is_scalar(u as u32));
            }
            assert(first.0 == c && first.1 == width);
            assert(rest.skip(width as int) =~= units@.skip(i + width));
        }
        match c {
            Some(c) => text.push(c),
            None => {
                text.push('\u{FFFD}');
                valid = false;
            },
        }
        assert(text@ + utf16_text(units@.skip(i + width)) =~= utf16_text(units@));
        i = i + width;
    }
    assert(units@.skip(i as int) =~= Seq::<u16>::empty());
    assert(text@ =~= utf16_text(units@));
    (text, valid)
}

/// Whether `text` holds a zero character.
fn has_zero(text: &Vec<char>) -> (out: bool)
    ensures
        out == text@.contains('\0'),
{
    let mut i: usize = 0;
    while i < text.len()
        invariant
            i <= text@.len(),
            forall|j: int| 0 <= j < i ==> text@[j] != '\0',
        decreases text.len() - i,
    {
        if text[i] == '\0' {
            assert(text@[i as int] == '\0');
            return true;
        }
        i = i + 1;
    }
    false
}

/// `text` with every `\r\n` made `\n`.
fn without_returns(text: &Vec<char>) -> (out: Vec<char>)
    ensures
        out@ == crlf_to_lf(text@),
{
    let mut out: Vec<char> = Vec::new();
    let mut i: usize = 0;
    while i < text.len()
        invariant
            i <= text@.len(),
            out@ == crlf_to_lf(text@.take(i as int)),
        decreases text.len() - i,
    {
        let ghost t = text@.take(i + 1);
        assert(t.drop_last() =~= text@.take(i as int));
        if text[i] == '\n' && i > 0 && text[i - 1] == '\r' {
            let ghost s = text@.take(i as int);
            assert(s.drop_last() =~= text@.take(i - 1));
            assert(t.take(t.len() - 2) =~= text@.take(i - 1));
            out.pop();
            out.push('\n');
        } else {
            out.push(text[i]);
        }
        assert(out@ =~= crlf_to_lf(t));
        i = i + 1;
    }
    assert(text@.take(text@.len() as int) =~= text@);
    out
}

/// Turns a file's bytes into its text, its encoding and its line ending.
///
/// A byte-order mark decides the encoding, and is not part of the text. Bytes that do not decode
/// are replaced and the file flagged as damaged. A file whose text holds a zero is not text.
pub fn decode(bytes: &[u8], path: &str) -> (out: Result<LoadedFile, FileError>)
    ensures
        decodes_to(bytes@, path@, out),
        // What had to be replaced shows as U+FFFD.
        out matches Ok(loaded) ==> (loaded.lossy ==> loaded.text@.contains('\u{FFFD}')),
{
    let (encoding, start): (Encoding, usize) = if bytes.len() >= 3 && bytes[0] == 0xEF && bytes[1] == 0xBB
        && bytes[2] == 0xBF {
        (Encoding::Utf8Bom, 3)
    } else if bytes.len() >= 2 && bytes[0] == 0xFF && bytes[1] == 0xFE {
        (Encoding::Utf16Le, 2)
    } else if bytes.len() >= 2 && bytes[0] == 0xFE && bytes[1] == 0xFF {
        (Encoding::Utf16Be, 2)
    } else {
        (Encoding::Utf8, 0)
    };
    let body = tail(bytes, start);
    let (text, damaged): (Vec<char>, bool) = match encoding {
        Encoding::Utf8 | Encoding::Utf8Bom => {
            let valid = utf8_ok(body.as_slice());
            let decoded = lossy(body.as_slice());
            (chars_of(decoded.as_str()), !valid)
        },
        _ => {
            let units = units_in(&body, encoding == Encoding::Utf16Be);
            let (text, valid) = utf16_decode(&units);
            (text, !valid)
        },
    };
    assert((text@, damaged) == decoded_text(bytes@));
    proof {
        if damaged && encoding != Encoding::Utf8 && encoding != Encoding::Utf8Bom {
            lemma_utf16_replaced(units_of(body@, encoding == Encoding::Utf16Be));
        }
        if damaged {
            lemma_crlf_keeps(text@, '\u{FFFD}');
        }
    }
    if has_zero(&text) {
        return Err(FileError::NotText { path: string_of_str(path) });
    }
    let line_ending = LineEnding::detect(string_of(text.as_slice()).as_str());
    let text = match line_ending {
        LineEnding::Lf => string_of(text.as_slice()),
        LineEnding::Crlf => string_of(without_returns(&text).as_slice()),
    };
    Ok(LoadedFile { text, encoding, line_ending, lossy: damaged })
}

/// A `String` holding the characters of `s`.
fn string_of_str(s: &str) -> (out: String)
    ensures
        out@ == s@,
{
    let cs = chars_of(s);
    string_of(cs.as_slice())
}

/// The UTF-16 units of `c`: one, or a surrogate pair for a character past the first plane.
pub open spec fn char_units(c: char) -> Seq<u16> {
    let n = c as u32;
    if n < 0x10000 {
        seq![n as u16]
    } else {
        seq![(0xD800 + (n - 0x10000) / 0x400) as u16, (0xDC00 + (n - 0x10000) % 0x400) as u16]
    }
}

/// The UTF-16 units of `text`, as `str::encode_utf16` gives them.
pub open spec fn utf16_units(text: Seq<char>) -> Seq<u16>
    decreases text.len(),
{
    if text.len() == 0 {
        seq![]
    } else {
        char_units(text[0]) + utf16_units(text.skip(1))
    }
}

/// The two bytes of `u`, most significant first when `big`.
pub open spec fn unit_pair(u: u16, big: bool) -> Seq<u8> {
    if big {
        seq![(u / 256) as u8, (u % 256) as u8]
    } else {
        seq![(u % 256) as u8, (u / 256) as u8]
    }
}

/// The bytes of `units`, two each.
pub open spec fn unit_bytes(units: Seq<u16>, big: bool) -> Seq<u8>
    decreases units.len(),
{
    if units.len() == 0 {
        seq![]
    } else {
        unit_pair(units[0], big) + unit_bytes(units.skip(1), big)
    }
}

/// `text` with its breaks written as `line_ending` says.
pub open spec fn with_breaks(text: Seq<char>, line_ending: LineEnding) -> Seq<char> {
    match line_ending {
        LineEnding::Lf => text,
        LineEnding::Crlf => lf_to_crlf(text),
    }
}

/// The bytes `text` is in `encoding` with `line_ending`: the mark the encoding asks for, then the
/// text with its breaks written out.
pub open spec fn encoded(text: Seq<char>, encoding: Encoding, line_ending: LineEnding) -> Seq<u8> {
    let t = with_breaks(text, line_ending);
    match encoding {
        Encoding::Utf8 => vstd::utf8::encode_utf8(t),
        Encoding::Utf8Bom => seq![0xEFu8, 0xBBu8, 0xBFu8] + vstd::utf8::encode_utf8(t),
        Encoding::Utf16Le => seq![0xFFu8, 0xFEu8] + unit_bytes(utf16_units(t), false),
        Encoding::Utf16Be => seq![0xFEu8, 0xFFu8] + unit_bytes(utf16_units(t), true),
    }
}

/// The bytes of `a` then `b` are the bytes of `a` followed by those of `b`.
proof fn lemma_unit_bytes_concat(a: Seq<u16>, b: Seq<u16>, big: bool)
    ensures
        unit_bytes(a + b, big) == unit_bytes(a, big) + unit_bytes(b, big),
    decreases a.len(),
{
    if a.len() == 0 {
        assert(a + b =~= b);
    } else {
        assert((a + b).skip(1) =~= a.skip(1) + b);
        lemma_unit_bytes_concat(a.skip(1), b, big);
        assert(unit_bytes(a + b, big) =~= unit_bytes(a, big) + unit_bytes(b, big));
    }
}

/// `text` with every `\n` made `\r\n`.
fn with_returns(text: &Vec<char>) -> (out: Vec<char>)
    ensures
        out@ == lf_to_crlf(text@),
{
    let mut out: Vec<char> = Vec::new();
    let mut i: usize = 0;
    while i < text.len()
        invariant
            i <= text@.len(),
            out@ == lf_to_crlf(text@.take(i as int)),
        decreases text.len() - i,
    {
        assert(text@.take(i + 1).drop_last() =~= text@.take(i as int));
        if text[i] == '\n' {
            out.push('\r');
            out.push('\n');
        } else {
            out.push(text[i]);
        }
        assert(out@ =~= lf_to_crlf(text@.take(i + 1)));
        i = i + 1;
    }
    assert(text@.take(text@.len() as int) =~= text@);
    out
}

/// Appends the bytes of `units`.
fn push_units(bytes: &mut Vec<u8>, u: u16, big: bool)
    ensures
        final(bytes)@ == old(bytes)@ + unit_pair(u, big),
{
    let high = (u / 256) as u8;
    let low = (u % 256) as u8;
    if big {
        bytes.push(high);
        bytes.push(low);
    } else {
        bytes.push(low);
        bytes.push(high);
    }
    assert(final(bytes)@ =~= old(bytes)@ + unit_pair(u, big));
}

/// The bytes `text` is in UTF-16, behind its mark.
fn utf16_encode(text: &Vec<char>, big: bool) -> (out: Vec<u8>)
    ensures
        out@ == (if big { seq![0xFEu8, 0xFFu8] } else { seq![0xFFu8, 0xFEu8] }) + unit_bytes(utf16_units(text@), big),
{
    let mut out: Vec<u8> = Vec::new();
    if big {
        out.push(0xFE);
        out.push(0xFF);
    } else {
        out.push(0xFF);
        out.push(0xFE);
    }
    let ghost mark = out@;
    let mut i: usize = 0;
    assert(text@.skip(0) =~= text@);
    while i < text.len()
        invariant
            i <= text@.len(),
            out@ + unit_bytes(utf16_units(text@.skip(i as int)), big) == mark + unit_bytes(utf16_units(text@), big),
        decreases text.len() - i,
    {
        let ghost rest = text@.skip(i as int);
        assert(rest[0] == text@[i as int]);
        assert(rest.skip(1) =~= text@.skip(i + 1));
        let ghost before = out@;
        let n = text[i] as u32;
        let ghost units = char_units(text@[i as int]);
        if n < 0x10000 {
            push_units(&mut out, n as u16, big);
            assert(units =~= seq![n as u16]);
            assert(units.skip(1) =~= Seq::<u16>::empty());
            assert(unit_bytes(units.skip(1), big) == Seq::<u8>::empty());
            assert(out@ =~= before + unit_bytes(units, big));
        } else {
            let v = n - 0x10000;
            let hi = (0xD800 + v / 0x400) as u16;
            let lo = (0xDC00 + v % 0x400) as u16;
            push_units(&mut out, hi, big);
            push_units(&mut out, lo, big);
            assert(units =~= seq![hi, lo]);
            assert(units.skip(1) =~= seq![lo]);
            assert(units.skip(1).skip(1) =~= Seq::<u16>::empty());
            assert(unit_bytes(units.skip(1).skip(1), big) == Seq::<u8>::empty());
            assert(unit_bytes(units.skip(1), big) =~= unit_pair(lo, big));
            assert(out@ =~= before + unit_bytes(units, big));
        }
        proof {
            lemma_unit_bytes_concat(units, utf16_units(text@.skip(i + 1)), big);
        }
        assert(out@ + unit_bytes(utf16_units(text@.skip(i + 1)), big) =~= mark + unit_bytes(utf16_units(text@), big));
        i = i + 1;
    }
    assert(text@.skip(i as int) =~= Seq::<char>::empty());
    assert(out@ =~= mark + unit_bytes(utf16_units(text@), big));
    out
}

/// The bytes `text` is in `encoding` with `line_ending`.
pub fn encode(text: &str, encoding: Encoding, line_ending: LineEnding) -> (out: Vec<u8>)
    ensures
        out@ == encoded(text@, encoding, line_ending),
{
    let chars = chars_of(text);
    let t = match line_ending {
        LineEnding::Lf => chars,
        LineEnding::Crlf => with_returns(&chars),
    };
    match encoding {
        Encoding::Utf8 => string_of(t.as_slice()).as_str().as_bytes_vec(),
        Encoding::Utf8Bom => {
            let mut bytes: Vec<u8> = Vec::new();
            bytes.push(0xEF);
            bytes.push(0xBB);
            bytes.push(0xBF);
            let mut rest = string_of(t.as_slice()).as_str().as_bytes_vec();
            bytes.append(&mut rest);
            bytes
        },
        Encoding::Utf16Le => utf16_encode(&t, false),
        Encoding::Utf16Be => utf16_encode(&t, true),
    }
}

/// What writing every `\n` as `\r\n` does: each `\n` now follows a `\r`, nothing else is new,
/// there is a `\n` exactly when there was one, and writing them back gives the text again.
proof fn lemma_returns(text: Seq<char>)
    ensures
        forall|k: int| 0 <= k < lf_to_crlf(text).len() && #[trigger] lf_to_crlf(text)[k] == '\n' ==> k >= 1
            && lf_to_crlf(text)[k - 1] == '\r',
        forall|k: int| 0 <= k < lf_to_crlf(text).len() ==> lf_to_crlf(text)[k] == '\r' || text.contains(
            #[trigger] lf_to_crlf(text)[k],
        ),
        text.contains('\n') == lf_to_crlf(text).contains('\n'),
        !text.contains('\n') ==> lf_to_crlf(text) == text,
        crlf_to_lf(lf_to_crlf(text)) == text,
    decreases text.len(),
{
    if text.len() > 0 {
        let init = text.drop_last();
        let c = text.last();
        lemma_returns(init);
        let u = lf_to_crlf(text);
        let v = lf_to_crlf(init);
        assert forall|k: int| 0 <= k < v.len() implies u[k] == v[k] by {}
        assert forall|x: char| init.contains(x) implies text.contains(x) by {
            let k = choose|k: int| 0 <= k < init.len() && init[k] == x;
            assert(text[k] == x);
        }
        assert(text[text.len() - 1] == c);
        if c == '\n' {
            assert(u =~= v + seq!['\r', '\n']);
            assert(u.take(u.len() - 2) =~= v);
            assert(u[u.len() - 1] == '\n');
            assert(text.contains('\n'));
        } else {
            assert(u =~= v.push(c));
            assert(u.drop_last() =~= v);
            if text.contains('\n') {
                let k = choose|k: int| 0 <= k < text.len() && text[k] == '\n';
                assert(init[k] == '\n');
            }
            if u.contains('\n') {
                let k = choose|k: int| 0 <= k < u.len() && u[k] == '\n';
                assert(v[k] == '\n');
            }
            if !text.contains('\n') {
                assert(!init.contains('\n')) by {
                    if init.contains('\n') {
                        let k = choose|k: int| 0 <= k < init.len() && init[k] == '\n';
                        assert(text[k] == '\n');
                    }
                }
                assert(text =~= init.push(c));
            }
        }
        assert(crlf_to_lf(u) =~= text);
    }
}

/// Every surrogate half in the UTF-16 of a text has its partner, and it reads back as the text.
proof fn lemma_utf16_round_trip(text: Seq<char>)
    ensures
        utf16_valid(utf16_units(text)),
        utf16_text(utf16_units(text)) == text,
    decreases text.len(),
{
    if text.len() > 0 {
        let c = text[0];
        let n = c as u32;
        let rest = utf16_units(text.skip(1));
        let units = utf16_units(text);
        lemma_utf16_round_trip(text.skip(1));
        vstd::utf8::char_is_scalar(c);
        vstd::utf8::char_u32_cast(c, n);
        assert(units == char_units(c) + rest);
        if n < 0x10000 {
            assert(units[0] == n as u16);
            assert(!is_high(units[0]) && !is_low(units[0]));
            assert(units.skip(1) =~= rest);
            assert(utf16_first(units) == (Some(c), 1int));
        } else {
            let v = n - 0x10000;
            assert(v / 0x400 * 0x400 + v % 0x400 == v) by {
                vstd::arithmetic::div_mod::lemma_fundamental_div_mod(v as int, 0x400);
            }
            assert(0 <= v / 0x400 < 0x400);
            assert(units[0] == (0xD800 + v / 0x400) as u16);
            assert(units[1] == (0xDC00 + v % 0x400) as u16);
            assert(units.skip(2) =~= rest);
            assert(utf16_first(units) == (Some(c), 2int));
        }
        assert(utf16_text(units) =~= seq![c] + utf16_text(rest));
        assert(text =~= seq![c] + text.skip(1));
    }
}

/// The units in the bytes of `units` are `units`.
proof fn lemma_unit_bytes_round_trip(units: Seq<u16>, big: bool)
    ensures
        units_of(unit_bytes(units, big), big) == units,
    decreases units.len(),
{
    if units.len() > 0 {
        let bytes = unit_bytes(units, big);
        let u = units[0];
        lemma_unit_bytes_round_trip(units.skip(1), big);
        assert(bytes.skip(2) =~= unit_bytes(units.skip(1), big));
        assert(u / 256 * 256 + u % 256 == u);
        assert(units_of(bytes, big) =~= seq![u] + units.skip(1));
        assert(units =~= seq![u] + units.skip(1));
    }
}

/// The leading byte of a character's UTF-8 is never 0xFE or 0xFF.
proof fn lemma_leading_byte(s: u32)
    requires
        vstd::utf8::is_scalar(s),
    ensures
        vstd::utf8::encode_scalar(s)[0] < 0xF8,
        vstd::utf8::encode_scalar(s)[0] == 0xEF ==> vstd::utf8::has_width_3_encoding(s),
{
    if vstd::utf8::has_width_1_encoding(s) {
        assert((s & 0x7F) as u8 <= 0x7F) by (bit_vector);
    } else if vstd::utf8::has_width_2_encoding(s) {
        assert((0xC0u8 | ((s >> 6) & 0x1F) as u8) <= 0xDF) by (bit_vector);
    } else if vstd::utf8::has_width_3_encoding(s) {
        assert((0xE0u8 | ((s >> 12) & 0x0F) as u8) <= 0xEF) by (bit_vector);
    } else {
        assert((0xF0u8 | ((s >> 18) & 0x7) as u8) <= 0xF7) by (bit_vector);
        assert((0xF0u8 | ((s >> 18) & 0x7) as u8) >= 0xF0) by (bit_vector);
    }
}

/// A three-byte UTF-8 sequence that spells a byte-order mark spells U+FEFF.
proof fn lemma_mark_scalar(s: u32)
    requires
        vstd::utf8::has_width_3_encoding(s),
        vstd::utf8::leading_byte_width_3(s) == 0xEF,
        vstd::utf8::second_last_continuation_byte(s) == 0xBB,
        vstd::utf8::last_continuation_byte(s) == 0xBF,
    ensures
        s == 0xFEFF,
{
    assert(((0xE0u8 | ((s >> 12) & 0x0F) as u8) == 0xEF && (0x80u8 | ((s >> 6) & 0x3F) as u8) == 0xBB
        && (0x80u8 | (s & 0x3F) as u8) == 0xBF && s <= 0xFFFF) ==> s == 0xFEFF) by (bit_vector);
}

/// UTF-8 with no mark in front reads as unmarked, unless the text itself starts with U+FEFF.
proof fn lemma_unmarked(text: Seq<char>)
    requires
        text.len() > 0 ==> text[0] != '\u{FEFF}',
    ensures
        sniffed(vstd::utf8::encode_utf8(text)) == (Encoding::Utf8, 0int),
{
    if text.len() > 0 {
        let s = text[0] as u32;
        vstd::utf8::char_is_scalar(text[0]);
        lemma_leading_byte(s);
        let bytes = vstd::utf8::encode_utf8(text);
        let first = vstd::utf8::encode_scalar(s);
        assert(bytes[0] == first[0]);
        if bytes.len() >= 3 && bytes[0] == 0xEF && bytes[1] == 0xBB && bytes[2] == 0xBF {
            assert(first.len() == 3);
            assert(bytes[1] == first[1] && bytes[2] == first[2]);
            lemma_mark_scalar(s);
            vstd::utf8::char_u32_cast(text[0], s);
        }
    }
}

/// Text written out reads back as the same text, in the same encoding, with the same line
/// ending when it has a break to show one by, and undamaged.
///
/// Three texts do not: one with a zero in it, which is refused as not text; one whose first
/// break already has a carriage return before it, written with bare `\n` breaks, which reads back
/// as CRLF; and one that starts with U+FEFF written as unmarked UTF-8, which reads back as marked.
pub proof fn law_saved_text_reads_back(
    text: Seq<char>,
    encoding: Encoding,
    line_ending: LineEnding,
    path: Seq<char>,
    out: Result<LoadedFile, FileError>,
)
    requires
        !text.contains('\0'),
        line_ending == LineEnding::Lf ==> detected(text) == LineEnding::Lf,
        encoding == Encoding::Utf8 && text.len() > 0 ==> text[0] != '\u{FEFF}',
        decodes_to(encoded(text, encoding, line_ending), path, out),
    ensures
        out matches Ok(file) && file.text@ == text && file.encoding == encoding && !file.lossy
            && file.line_ending == if line_ending == LineEnding::Crlf && text.contains('\n') {
            LineEnding::Crlf
        } else {
            LineEnding::Lf
        },
{
    let u = with_breaks(text, line_ending);
    let bytes = encoded(text, encoding, line_ending);
    lemma_returns(text);
    if line_ending == LineEnding::Crlf && text.len() > 0 {
        assert(u[0] == '\r' || text.contains(u[0]));
    }
    assert(u.len() > 0 && encoding == Encoding::Utf8 ==> u[0] != '\u{FEFF}') by {
        if line_ending == LineEnding::Crlf && u.len() > 0 && encoding == Encoding::Utf8 {
            if text.len() == 0 {
                assert(u.len() == 0);
            } else if text[0] == '\n' {
                assert(text.take(1).drop_last() =~= Seq::<char>::empty());
                assert(lf_to_crlf(Seq::<char>::empty()) == Seq::<char>::empty());
                assert(text.take(1).last() == text[0]);
                assert(lf_to_crlf(text.take(1)) =~= seq!['\r', '\n']);
                lemma_crlf_prefix(text, 1);
                assert(u[0] == lf_to_crlf(text.take(1))[0]);
            } else {
                assert(text.take(1).drop_last() =~= Seq::<char>::empty());
                assert(lf_to_crlf(Seq::<char>::empty()) == Seq::<char>::empty());
                assert(text.take(1).last() == text[0]);
                assert(lf_to_crlf(text.take(1)) =~= seq![text[0]]);
                lemma_crlf_prefix(text, 1);
                assert(u[0] == lf_to_crlf(text.take(1))[0]);
            }
        }
    }
    match encoding {
        Encoding::Utf8 => {
            lemma_unmarked(u);
            assert(bytes.skip(0) =~= bytes);
            vstd::utf8::encode_utf8_valid_utf8(u);
            vstd::utf8::encode_utf8_decode_utf8(u);
        },
        Encoding::Utf8Bom => {
            assert(bytes.skip(3) =~= vstd::utf8::encode_utf8(u));
            vstd::utf8::encode_utf8_valid_utf8(u);
            vstd::utf8::encode_utf8_decode_utf8(u);
        },
        Encoding::Utf16Le => {
            assert(bytes.skip(2) =~= unit_bytes(utf16_units(u), false));
            lemma_unit_bytes_round_trip(utf16_units(u), false);
            lemma_utf16_round_trip(u);
        },
        Encoding::Utf16Be => {
            assert(bytes.skip(2) =~= unit_bytes(utf16_units(u), true));
            lemma_unit_bytes_round_trip(utf16_units(u), true);
            lemma_utf16_round_trip(u);
        },
    }
    assert(decoded_text(bytes) == (u, false));
    assert(!u.contains('\0')) by {
        if u.contains('\0') {
            let k = choose|k: int| 0 <= k < u.len() && u[k] == '\0';
            assert(u[k] == '\r' || text.contains(u[k]));
        }
    }
    if line_ending == LineEnding::Crlf && text.contains('\n') {
        let k = first_of(u, '\n');
        lemma_first_of(u, '\n');
        let w = choose|w: int| 0 <= w < u.len() && u[w] == '\n';
        assert(k <= w);
        assert(detected(u) == LineEnding::Crlf);
    } else if line_ending == LineEnding::Crlf {
        assert(u == text);
        lemma_first_of(u, '\n');
        assert(first_of(u, '\n') == u.len()) by {
            if first_of(u, '\n') < u.len() {
                assert(u[first_of(u, '\n')] == '\n');
            }
        }
    }
}

/// Writing out the breaks of a prefix gives a prefix of writing out the breaks of the whole.
proof fn lemma_crlf_prefix(text: Seq<char>, k: int)
    requires
        0 <= k <= text.len(),
    ensures
        lf_to_crlf(text.take(k)).len() <= lf_to_crlf(text).len(),
        forall|j: int| 0 <= j < lf_to_crlf(text.take(k)).len() ==> lf_to_crlf(text)[j] == #[trigger] lf_to_crlf(text.take(k))[j],
    decreases text.len() - k,
{
    if k < text.len() {
        lemma_crlf_prefix(text, k + 1);
        assert(text.take(k + 1).drop_last() =~= text.take(k));
        let shorter = lf_to_crlf(text.take(k));
        let longer = lf_to_crlf(text.take(k + 1));
        assert forall|j: int| 0 <= j < shorter.len() implies longer[j] == shorter[j] by {
            if text.take(k + 1).last() == '\n' {
                assert(longer == shorter + seq!['\r', '\n']);
            } else {
                assert(longer == shorter.push(text.take(k + 1).last()));
            }
        }
    } else {
        assert(text.take(k) =~= text);
    }
}

} // verus!
