//! Looking inside the files: what a search asks for, and what each line that matched becomes.
//!
//! A pattern somebody typed in lower case is a pattern they did not mean to be fussy about; one
//! with a capital in it is one they did. Literal text is escaped into a regular expression that
//! matches exactly it.

use vstd::prelude::*;

use crate::names::{push_path, pushed};
use crate::search::files::Walk;
use crate::text::{chars_of, lossy, owned, string_of_prefix, text_of};

verus! {

/// One line that matched.
#[derive(Clone, PartialEq, Eq, Debug)]
pub struct Hit {
    /// Which file, relative to the project root.
    pub path: String,
    /// Which line, counting from one, the way an editor does.
    pub line: u64,
    /// Where in the line the match began, in bytes.
    pub column: usize,
    /// How long the match was, in bytes.
    pub length: usize,
    /// The line itself, with the ends trimmed.
    pub text: String,
}

/// What a search should look for and where.
#[derive(Clone, Debug)]
pub struct Query {
    /// What to look for.
    pub pattern: String,
    /// Whether `pattern` is a regular expression. Literal text otherwise.
    pub regex: bool,
    /// Whether a pattern with no capitals matches without regard to case.
    pub smart_case: bool,
    /// Which files to look in.
    pub walk: Walk,
    /// How many hits to stop at.
    pub limit: usize,
}

impl Default for Query {
    fn default() -> (out: Self)
        ensures
            out.pattern@.len() == 0,
            !out.regex,
            out.smart_case,
            !out.walk.ignored && !out.walk.hidden && !out.walk.follow_links && out.walk.limit == 500_000,
            out.limit == 10_000,
    {
        Query { pattern: String::new(), regex: false, smart_case: true, walk: Walk::default(), limit: 10_000 }
    }
}

/// Whether `c` means something in a regular expression.
pub open spec fn is_meta(c: char) -> bool {
    c == '\\' || c == '.' || c == '+' || c == '*' || c == '?' || c == '(' || c == ')' || c == '|' || c == '['
        || c == ']' || c == '{' || c == '}' || c == '^' || c == '$' || c == '#' || c == '&' || c == '-' || c
        == '~'
}

/// `text` with a backslash before each character that means something in a regular expression.
pub open spec fn regex_escaped(text: Seq<char>) -> Seq<char>
    decreases text.len(),
{
    if text.len() == 0 {
        seq![]
    } else if is_meta(text.last()) {
        regex_escaped(text.drop_last()) + seq!['\\', text.last()]
    } else {
        regex_escaped(text.drop_last()).push(text.last())
    }
}

/// Escaping text for a regular expression goes character by character: the escape of two texts
/// one after the other is the escape of the first, then the escape of the second.
pub proof fn law_escaping_goes_piece_by_piece(a: Seq<char>, b: Seq<char>)
    ensures
        regex_escaped(a + b) == regex_escaped(a) + regex_escaped(b),
    decreases b.len(),
{
    if b.len() > 0 {
        law_escaping_goes_piece_by_piece(a, b.drop_last());
        assert((a + b).drop_last() =~= a + b.drop_last());
        assert((a + b).last() == b.last());
    } else {
        assert(a + b =~= a);
    }
}

/// Every character `regex_syntax` counts as meta, `$` among them, comes out with a backslash
/// before it, so a literal search matches exactly what was typed; a letter, a digit, a space or
/// a slash comes out as it is.
pub proof fn law_meta_characters_are_escaped(c: char)
    ensures
        (c == '\\' || c == '.' || c == '+' || c == '*' || c == '?' || c == '(' || c == ')' || c == '|' || c == '['
            || c == ']' || c == '{' || c == '}' || c == '^' || c == '$' || c == '#' || c == '&' || c == '-' || c
            == '~') ==> regex_escaped(seq![c]) == seq!['\\', c],
        (('a' <= c <= 'z') || ('A' <= c <= 'Z') || ('0' <= c <= '9') || c == ' ' || c == '/' || c == '_')
            ==> regex_escaped(seq![c]) == seq![c],
{
    let one = seq![c];
    assert(one.drop_last() =~= Seq::<char>::empty());
    assert(one.last() == c);
    assert(regex_escaped(Seq::<char>::empty()) == Seq::<char>::empty());
    assert(regex_escaped(one) == if is_meta(c) {
        regex_escaped(one.drop_last()) + seq!['\\', c]
    } else {
        regex_escaped(one.drop_last()).push(c)
    });
    assert(Seq::<char>::empty() + seq!['\\', c] =~= seq!['\\', c]);
    assert(Seq::<char>::empty().push(c) =~= seq![c]);
}

/// `text` as a regular expression that matches exactly it: a backslash before each meta
/// character, everything else copied, as `regex_syntax::escape` writes it.
fn regex_escape(text: &str) -> (out: String)
    ensures
        out@ == regex_escaped(text@),
{
    let cs = chars_of(text);
    let mut out = String::new();
    let mut i: usize = 0;
    while i < cs.len()
        invariant
            i <= cs@.len(),
            cs@ == text@,
            out@ == regex_escaped(cs@.take(i as int)),
        decreases cs.len() - i,
    {
        let c = cs[i];
        assert(cs@.take(i + 1).drop_last() =~= cs@.take(i as int));
        assert(cs@.take(i + 1).last() == c);
        let meta = c == '\\' || c == '.' || c == '+' || c == '*' || c == '?' || c == '(' || c == ')' || c == '|'
            || c == '[' || c == ']' || c == '{' || c == '}' || c == '^' || c == '$' || c == '#' || c == '&'
            || c == '-' || c == '~';
        if meta {
            let ghost before = out@;
            crate::text::push_char(&mut out, '\\');
            crate::text::push_char(&mut out, c);
            assert(out@ =~= before + seq!['\\', c]);
        } else {
            crate::text::push_char(&mut out, c);
        }
        i = i + 1;
    }
    assert(cs@.take(cs@.len() as int) =~= cs@);
    out
}

/// The regular expression a query comes to: its pattern as it is, or escaped when it is
/// literal text.
pub fn pattern_of(query: &Query) -> (out: String)
    ensures
        out@ == if query.regex { query.pattern@ } else { regex_escaped(query.pattern@) },
{
    if query.regex {
        query.pattern.clone()
    } else {
        regex_escape(query.pattern.as_str())
    }
}

/// Whether `c` is a capital letter, as Unicode's `Uppercase` property says.
pub uninterp spec fn is_upper(c: char) -> bool;

/// Whether `c` is a capital letter.
///
/// Calls `char::is_uppercase`; trusted to answer `is_upper`.
#[verifier::external_body]
fn upper(c: char) -> (out: bool)
    ensures
        out == is_upper(c),
{
    c.is_uppercase()
}

/// Whether a query matches without regard to case: smart case asked for, and no capital in the
/// pattern.
pub fn insensitive(query: &Query) -> (out: bool)
    ensures
        out == (query.smart_case && forall|k: int| 0 <= k < query.pattern@.len() ==> !is_upper(#[trigger] query.pattern@[k])),
{
    if !query.smart_case {
        return false;
    }
    let cs = chars_of(query.pattern.as_str());
    let mut i: usize = 0;
    while i < cs.len()
        invariant
            i <= cs@.len(),
            cs@ == query.pattern@,
            forall|k: int| 0 <= k < i ==> !is_upper(#[trigger] cs@[k]),
        decreases cs.len() - i,
    {
        if upper(cs[i]) {
            return false;
        }
        i = i + 1;
    }
    true
}

/// `text` without the line breaks and carriage returns it ends with.
pub open spec fn without_breaks(text: Seq<char>) -> Seq<char>
    decreases text.len(),
{
    if text.len() > 0 && (text.last() == '\n' || text.last() == '\r') {
        without_breaks(text.drop_last())
    } else {
        text
    }
}

/// The text shown for a line that matched: read as UTF-8 with what does not decode replaced,
/// without its breaks, and no more than four hundred characters of it.
pub open spec fn shown_text(bytes: Seq<u8>) -> Seq<char> {
    let t = without_breaks(text_of(bytes));
    t.take(if t.len() < 400 { t.len() as int } else { 400 })
}

/// What one line that matched becomes: the file, the line number or zero when there is none,
/// where the match was in it or nothing when the matcher did not say, and the line's text.
pub fn hit_of(path: &str, line: Option<u64>, bytes: &[u8], found: Option<(usize, usize)>) -> (out: Hit)
    requires
        found matches Some((start, end)) ==> start <= end,
    ensures
        out.path@ == path@,
        out.line == match line {
            Some(n) => n,
            None => 0,
        },
        (out.column, out.length) == match found {
            Some((start, end)) => (start, (end - start) as usize),
            None => (0usize, 0usize),
        },
        out.text@ == shown_text(bytes@),
{
    let t = chars_of(lossy(bytes).as_str());
    let mut end = t.len();
    assert(t@.take(end as int) =~= t@);
    while end > 0 && (t[end - 1] == '\n' || t[end - 1] == '\r')
        invariant
            end <= t@.len(),
            t@ == text_of(bytes@),
            without_breaks(t@) == without_breaks(t@.take(end as int)),
        decreases end,
    {
        assert(t@.take(end as int).drop_last() =~= t@.take(end - 1));
        end = end - 1;
    }
    let keep = if end < 400 { end } else { 400 };
    let text = string_of_prefix(t.as_slice(), keep);
    assert(t@.take(keep as int) =~= shown_text(bytes@));
    let (column, length) = match found {
        Some((start, finish)) => (start, finish - start),
        None => (0, 0),
    };
    Hit {
        path: owned(path),
        line: match line {
            Some(n) => n,
            None => 0,
        },
        column,
        length,
        text,
    }
}

/// The absolute path a hit stands for.
pub fn absolute(root: &str, hit: &Hit) -> (out: String)
    ensures
        out@ == pushed(root@, hit.path@),
{
    push_path(root, hit.path.as_str())
}

} // verus!
