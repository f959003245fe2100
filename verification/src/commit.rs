//! What committing the whole tree would take, read from `git diff --numstat`.
//!
//! Running git is the caller's part; reading what it printed is here.

use vstd::prelude::*;

use crate::fs::{first_of, lemma_first_of};
use crate::gutter::{all_digits, digits_value};
use crate::project::{trim_text, trimmed};
use crate::repo::Error;
use crate::text::{chars_of, owned, str_lines, str_lines_of, string_of};

verus! {

/// One file a commit of the whole tree would touch.
#[derive(Clone, Debug)]
pub struct PendingFile {
    /// Its path, relative to the repository root.
    pub path: String,
    /// Lines added.
    pub added: u32,
    /// Lines taken away.
    pub removed: u32,
    /// Whether the counts mean nothing because the file is binary.
    pub binary: bool,
}

/// Everything a commit of the whole tree would take: the files with their counts, and the patch.
#[derive(Clone, Debug)]
pub struct Pending {
    /// The files, in git's order.
    pub files: Vec<PendingFile>,
    /// The whole patch, as `git diff` writes it.
    pub patch: String,
}

impl Default for Pending {
    fn default() -> (out: Self)
        ensures
            out.files@.len() == 0,
            out.patch@.len() == 0,
    {
        Pending { files: Vec::new(), patch: String::new() }
    }
}

/// What `text.parse::<u32>()` gives: a run of decimal digits, perhaps after a plus sign, whose
/// value fits in 32 bits.
pub open spec fn number32(text: Seq<char>) -> Option<nat> {
    let digits = if text.len() > 0 && text[0] == '+' { text.skip(1) } else { text };
    if digits.len() > 0 && all_digits(digits) && digits_value(digits) <= u32::MAX {
        Some(digits_value(digits))
    } else {
        None
    }
}

/// `digits_value` only grows as digits are added.
proof fn lemma_digits_grow(digits: Seq<char>, k: int)
    requires
        0 <= k <= digits.len(),
        all_digits(digits),
    ensures
        digits_value(digits.take(k)) <= digits_value(digits),
    decreases digits.len() - k,
{
    if k < digits.len() {
        lemma_digits_grow(digits, k + 1);
        assert(digits.take(k + 1).drop_last() =~= digits.take(k));
    } else {
        assert(digits.take(k) =~= digits);
    }
}

/// The number written in `cs`, as `u32` reads it.
fn parse_u32(cs: &Vec<char>) -> (out: Option<u32>)
    ensures
        match out {
            Some(n) => number32(cs@) == Some(n as nat),
            None => number32(cs@) is None,
        },
{
    let ghost text = cs@;
    let start: usize = if cs.len() > 0 && cs[0] == '+' { 1 } else { 0 };
    let ghost digits = cs@.skip(start as int);
    assert(digits =~= if text.len() > 0 && text[0] == '+' { text.skip(1) } else { text });
    if start == cs.len() {
        return None;
    }
    let mut value: u32 = 0;
    let mut i: usize = start;
    while i < cs.len()
        invariant
            start <= i <= cs@.len(),
            text == cs@,
            digits == cs@.skip(start as int),
            digits == if text.len() > 0 && text[0] == '+' { text.skip(1) } else { text },
            all_digits(digits.take(i - start)),
            value == digits_value(digits.take(i - start)),
        decreases cs.len() - i,
    {
        let c = cs[i];
        assert(digits.take(i + 1 - start).drop_last() =~= digits.take(i - start));
        assert(digits.take(i + 1 - start).last() == c);
        if c < '0' || c > '9' {
            assert(!all_digits(digits)) by {
                assert(digits[i - start] == c);
            }
            return None;
        }
        let d = (c as u32 - 48) as u32;
        let grown = match value.checked_mul(10) {
            Some(v) => v.checked_add(d),
            None => None,
        };
        match grown {
            Some(v) => {
                value = v;
            },
            None => {
                proof {
                    if all_digits(digits) {
                        lemma_digits_grow(digits, i + 1 - start);
                    }
                }
                return None;
            },
        }
        i = i + 1;
    }
    assert(digits.take(cs@.len() - start) =~= digits);
    Some(value)
}

/// The three fields of a line, as `splitn(3, '\t')` cuts it: up to the first tab, up to the
/// second, and the rest. Nothing for a line with fewer than two tabs.
pub open spec fn three_fields(line: Seq<char>) -> Option<(Seq<char>, Seq<char>, Seq<char>)> {
    let a = first_of(line, '\t');
    if a >= line.len() {
        None
    } else {
        let rest = line.skip(a + 1);
        let b = first_of(rest, '\t');
        if b >= rest.len() {
            None
        } else {
            Some((line.take(a), rest.take(b), rest.skip(b + 1)))
        }
    }
}

/// What one line of `--numstat` says, when it has its three fields: the counts, each nothing
/// when it is not a number, and binary when the first count is a dash.
pub open spec fn numstat_line(line: Seq<char>) -> Option<(Seq<char>, u32, u32, bool)> {
    match three_fields(line) {
        Some((added, removed, path)) => Some((
            path,
            match number32(added) {
                Some(n) => n as u32,
                None => 0u32,
            },
            match number32(removed) {
                Some(n) => n as u32,
                None => 0u32,
            },
            added == seq!['-'],
        )),
        None => None,
    }
}

/// What every line of `--numstat` says, in order, those without three fields left out.
pub open spec fn numstat(lines: Seq<Seq<char>>) -> Seq<(Seq<char>, u32, u32, bool)>
    decreases lines.len(),
{
    if lines.len() == 0 {
        seq![]
    } else {
        match numstat_line(lines.last()) {
            Some(file) => numstat(lines.drop_last()).push(file),
            None => numstat(lines.drop_last()),
        }
    }
}

/// How the spec sees a pending file.
pub open spec fn pending_view(f: PendingFile) -> (Seq<char>, u32, u32, bool) {
    (f.path@, f.added, f.removed, f.binary)
}

/// Where the first `c` in `cs[from..]` is, or the length.
fn find_from(cs: &Vec<char>, from: usize, c: char) -> (out: usize)
    requires
        from <= cs@.len(),
    ensures
        from + first_of(cs@.skip(from as int), c) == out,
        from <= out <= cs@.len(),
{
    let ghost s = cs@.skip(from as int);
    let mut i = from;
    assert(s.take(0) =~= Seq::<char>::empty());
    while i < cs.len() && cs[i] != c
        invariant
            from <= i <= cs@.len(),
            s == cs@.skip(from as int),
            first_of(s.take(i - from), c) == i - from,
        decreases cs.len() - i,
    {
        assert(s.take(i + 1 - from).drop_last() =~= s.take(i - from));
        assert(s.take(i + 1 - from).last() == cs@[i as int]);
        i = i + 1;
    }
    proof {
        lemma_first_of(s, c);
        lemma_first_of(s.take(i - from), c);
        assert(forall|j: int| 0 <= j < i - from ==> s[j] == #[trigger] s.take(i - from)[j]);
        let k = first_of(s, c);
        if i < cs@.len() {
            assert(s[i - from] == c);
            if k < i - from {
                assert(s.take(i - from)[k] == s[k]);
            }
        } else {
            assert(s.take(i - from) =~= s);
        }
    }
    i
}

/// The characters of `cs` from `from` up to `to`.
fn slice_of(cs: &Vec<char>, from: usize, to: usize) -> (out: Vec<char>)
    requires
        from <= to <= cs@.len(),
    ensures
        out@ == cs@.subrange(from as int, to as int),
{
    let mut out: Vec<char> = Vec::new();
    let mut i = from;
    while i < to
        invariant
            from <= i <= to <= cs@.len(),
            out@ == cs@.subrange(from as int, i as int),
        decreases to - i,
    {
        out.push(cs[i]);
        assert(out@ =~= cs@.subrange(from as int, i + 1));
        i = i + 1;
    }
    out
}

/// What one line of `--numstat` says.
fn numstat_file(line: &Vec<char>) -> (out: Option<PendingFile>)
    ensures
        match out {
            Some(f) => numstat_line(line@) == Some(pending_view(f)),
            None => numstat_line(line@) is None,
        },
{
    let a = find_from(line, 0, '\t');
    assert(line@.skip(0) =~= line@);
    if a >= line.len() {
        return None;
    }
    let b = find_from(line, a + 1, '\t');
    let ghost rest = line@.skip(a + 1);
    if b >= line.len() {
        return None;
    }
    let added = slice_of(line, 0, a);
    let removed = slice_of(line, a + 1, b);
    let path = slice_of(line, b + 1, line.len());
    assert(added@ =~= line@.take(a as int));
    assert(removed@ =~= rest.take(b - (a + 1)));
    assert(path@ =~= rest.skip(b - (a + 1) + 1));
    let binary = added.len() == 1 && added[0] == '-';
    assert(binary == (added@ == seq!['-'])) by {
        if added@ == seq!['-'] {
            assert(added@[0] == '-');
        }
        if binary {
            assert(added@ =~= seq!['-']);
        }
    }
    let added_count = match parse_u32(&added) {
        Some(n) => n,
        None => 0,
    };
    let removed_count = match parse_u32(&removed) {
        Some(n) => n,
        None => 0,
    };
    Some(PendingFile { path: string_of(path.as_slice()), added: added_count, removed: removed_count, binary })
}

/// The files `git diff --numstat` lists, with their counts, in its order.
///
/// A line is a count of lines added, a tab, a count taken away, a tab, and the path; a binary
/// file has dashes for counts, which read as nothing.
pub fn parse_numstat(text: &str) -> (out: Vec<PendingFile>)
    ensures
        out@.map_values(|f: PendingFile| pending_view(f)) == numstat(str_lines(text@)),
{
    let lines = str_lines_of(text);
    let ghost lv = lines@.map_values(|l: Vec<char>| l@);
    let mut out: Vec<PendingFile> = Vec::new();
    let mut i: usize = 0;
    assert(out@.map_values(|f: PendingFile| pending_view(f)) =~= numstat(lv.take(0)));
    while i < lines.len()
        invariant
            i <= lines@.len(),
            lv == lines@.map_values(|l: Vec<char>| l@),
            out@.map_values(|f: PendingFile| pending_view(f)) == numstat(lv.take(i as int)),
        decreases lines.len() - i,
    {
        assert(lv.take(i + 1).drop_last() =~= lv.take(i as int));
        assert(lv.take(i + 1).last() == lines@[i as int]@);
        let ghost prior = out@.map_values(|f: PendingFile| pending_view(f));
        match numstat_file(&lines[i]) {
            Some(f) => {
                out.push(f);
                assert(out@.map_values(|f: PendingFile| pending_view(f)) =~= prior.push(pending_view(out@.last())));
            },
            None => {},
        }
        i = i + 1;
    }
    assert(lv.take(lv.len() as int) =~= lv);
    out
}

/// The message a commit is made with: what was typed, without white space at either end. A
/// message of nothing is refused.
pub fn message_of(message: &str) -> (out: Result<String, Error>)
    ensures
        trimmed(message@).len() > 0 <==> out is Ok,
        out matches Ok(m) ==> m@ == trimmed(message@),
        out is Err ==> (out matches Err(Error::Git(said)) && said@ == "a commit needs a message"@),
{
    let t = trim_text(message);
    if t.len() == 0 {
        return Err(Error::Git(owned("a commit needs a message")));
    }
    Ok(string_of(t.as_slice()))
}

} // verus!
