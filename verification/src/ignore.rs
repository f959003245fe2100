//! Adding to `.gitignore`.
//!
//! The one at the top of the working tree, and never one beside the file. A rule in the root is
//! the rule a person goes looking for, and it is the only place an anchored rule means what it
//! says. Reading and writing the file is the caller's part; the rule, and what to append, are
//! worked out here.

use vstd::prelude::*;

use crate::project::{trim_end, trim_start, trimmed};
use crate::text::{chars_of, is_space, lemma_split_nonempty, push_char, split_on, str_lines, str_lines_of, string_of};

verus! {

/// What is being left out.
#[derive(Clone, Copy, PartialEq, Eq, Structural, Debug)]
pub enum Kind {
    /// One file.
    File,
    /// A directory and everything under it.
    Directory,
}

/// Whether gitignore reads `c` as part of a pattern.
pub open spec fn is_pattern_char(c: char) -> bool {
    c == '\\' || c == '*' || c == '?' || c == '[' || c == ']' || c == '!' || c == '#'
}

/// `path` with the characters gitignore reads as a pattern made literal by a backslash each.
pub open spec fn escaped(path: Seq<char>) -> Seq<char>
    decreases path.len(),
{
    if path.len() == 0 {
        seq![]
    } else if is_pattern_char(path.last()) {
        escaped(path.drop_last()) + seq!['\\', path.last()]
    } else {
        escaped(path.drop_last()).push(path.last())
    }
}

/// `text` without the slashes at either end.
pub open spec fn without_slashes(text: Seq<char>) -> Seq<char>
    decreases text.len(),
{
    if text.len() > 0 && text[0] == '/' {
        without_slashes(text.skip(1))
    } else if text.len() > 0 && text.last() == '/' {
        without_slashes(text.drop_last())
    } else {
        text
    }
}

/// The line that leaves `path` out: anchored at the top, escaped, and with a trailing slash for
/// a directory.
pub open spec fn rule(path: Seq<char>, kind: Kind) -> Seq<char> {
    let body = seq!['/'] + escaped(without_slashes(path));
    match kind {
        Kind::File => body,
        Kind::Directory => body.push('/'),
    }
}

/// The line that leaves `path` out.
///
/// Anchored, so `/target` and never `target`. A directory gets a trailing slash. Glob
/// characters in a name are escaped, so a file called `a[1].txt` names itself and nothing else.
pub fn rule_for(path: &str, kind: Kind) -> (out: String)
    ensures
        out@ == rule(path@, kind),
{
    let cs = chars_of(path);
    let mut start: usize = 0;
    let mut end: usize = cs.len();
    assert(cs@.subrange(0, cs@.len() as int) =~= cs@);
    while start < end && (cs[start] == '/' || cs[end - 1] == '/')
        invariant
            start <= end <= cs@.len(),
            cs@ == path@,
            without_slashes(path@) == without_slashes(cs@.subrange(start as int, end as int)),
        decreases end - start,
    {
        let ghost s = cs@.subrange(start as int, end as int);
        if cs[start] == '/' {
            assert(s[0] == '/');
            assert(s.skip(1) =~= cs@.subrange(start + 1, end as int));
            start = start + 1;
        } else {
            assert(s.last() == '/');
            assert(s.drop_last() =~= cs@.subrange(start as int, end - 1));
            end = end - 1;
        }
    }
    let mut out = String::new();
    push_char(&mut out, '/');
    let mut i = start;
    assert(cs@.subrange(start as int, start as int) =~= Seq::<char>::empty());
    while i < end
        invariant
            start <= i <= end <= cs@.len(),
            out@ == seq!['/'] + escaped(cs@.subrange(start as int, i as int)),
        decreases end - i,
    {
        let c = cs[i];
        assert(cs@.subrange(start as int, i + 1).drop_last() =~= cs@.subrange(start as int, i as int));
        if c == '\\' || c == '*' || c == '?' || c == '[' || c == ']' || c == '!' || c == '#' {
            push_char(&mut out, '\\');
        }
        push_char(&mut out, c);
        assert(out@ =~= seq!['/'] + escaped(cs@.subrange(start as int, i + 1)));
        i = i + 1;
    }
    assert(without_slashes(cs@.subrange(start as int, end as int)) == cs@.subrange(start as int, end as int));
    match kind {
        Kind::File => out,
        Kind::Directory => {
            push_char(&mut out, '/');
            out
        },
    }
}

/// What to append to a `.gitignore` holding `held` so that it leaves `path` out: nothing when a
/// line of it already is the rule, apart from white space; otherwise the rule on a line of its
/// own, after a break when the file does not end with one.
pub open spec fn appended(held: Seq<char>, path: Seq<char>, kind: Kind) -> Option<Seq<char>> {
    let r = rule(path, kind);
    if exists|k: int| 0 <= k < str_lines(held).len() && trimmed(str_lines(held)[k]) == r {
        None
    } else if held.len() > 0 && held.last() != '\n' {
        Some(seq!['\n'] + r.push('\n'))
    } else {
        Some(r.push('\n'))
    }
}

/// What to append to a `.gitignore` holding `held` so that it leaves `path` out, or nothing when
/// it already does.
pub fn addition(held: &str, path: &str, kind: Kind) -> (out: Option<String>)
    ensures
        match out {
            Some(text) => appended(held@, path@, kind) == Some(text@),
            None => appended(held@, path@, kind) is None,
        },
{
    let r = rule_for(path, kind);
    let lines = str_lines_of(held);
    let ghost lv = lines@.map_values(|l: Vec<char>| l@);
    let mut i: usize = 0;
    while i < lines.len()
        invariant
            i <= lines@.len(),
            lv == lines@.map_values(|l: Vec<char>| l@),
            lv == str_lines(held@),
            r@ == rule(path@, kind),
            forall|k: int| 0 <= k < i ==> trimmed(lv[k]) != r@,
        decreases lines.len() - i,
    {
        let line = string_of(lines[i].as_slice());
        let t = crate::project::trim_text(line.as_str());
        assert(lv[i as int] == lines@[i as int]@);
        if crate::text::same_text(string_of(t.as_slice()).as_str(), r.as_str()) {
            assert(trimmed(str_lines(held@)[i as int]) == rule(path@, kind));
            return None;
        }
        i = i + 1;
    }
    let cs = chars_of(held);
    let mut out = String::new();
    if cs.len() > 0 && cs[cs.len() - 1] != '\n' {
        push_char(&mut out, '\n');
    }
    crate::text::push_str(&mut out, r.as_str());
    push_char(&mut out, '\n');
    assert(out@ =~= if held@.len() > 0 && held@.last() != '\n' { seq!['\n'] + r@.push('\n') } else { r@.push('\n') });
    Some(out)
}

/// Taking white space off either end never makes a text longer.
proof fn lemma_trim_lengths(x: Seq<char>)
    ensures
        trim_start(x).len() <= x.len(),
        trim_end(x).len() <= x.len(),
    decreases x.len(),
{
    if x.len() > 0 {
        lemma_trim_lengths(x.skip(1));
        lemma_trim_lengths(x.drop_last());
    }
}

/// A text that ends in white space is shortened by trimming.
proof fn lemma_trimmed_shorter(x: Seq<char>)
    requires
        x.len() > 0,
        is_space(x.last()),
    ensures
        trimmed(x).len() < x.len(),
{
    if is_space(x[0]) {
        lemma_trim_lengths(x.skip(1));
        lemma_trim_lengths(trim_start(x.skip(1)));
    } else {
        lemma_trim_lengths(x.drop_last());
    }
}

/// Cutting a text that ends with a piece holding no separator: the pieces of what comes before,
/// the last one carried on by that piece.
proof fn lemma_split_tail(front: Seq<char>, tail: Seq<char>, separator: char)
    requires
        !tail.contains(separator),
    ensures
        split_on(front + tail, separator) == split_on(front, separator).update(
            split_on(front, separator).len() - 1,
            split_on(front, separator).last() + tail,
        ),
    decreases tail.len(),
{
    lemma_split_nonempty(front, separator);
    if tail.len() == 0 {
        assert(front + tail =~= front);
        assert(split_on(front, separator).last() + tail =~= split_on(front, separator).last());
        assert(split_on(front, separator).update(split_on(front, separator).len() - 1, split_on(front, separator).last())
            =~= split_on(front, separator));
    } else {
        let shorter = tail.drop_last();
        assert(!shorter.contains(separator)) by {
            if shorter.contains(separator) {
                let k = choose|k: int| 0 <= k < shorter.len() && shorter[k] == separator;
                assert(tail[k] == separator);
            }
        }
        assert(tail.last() != separator) by {
            assert(tail[tail.len() - 1] == tail.last());
        }
        lemma_split_tail(front, shorter, separator);
        assert((front + tail).drop_last() =~= front + shorter);
        assert((front + tail).last() == tail.last());
        let pieces = split_on(front, separator);
        assert(split_on(front + tail, separator) =~= pieces.update(pieces.len() - 1, pieces.last() + tail)) by {
            let before = split_on(front + shorter, separator);
            assert(before.last() == pieces.last() + shorter);
            assert(pieces.last() + shorter.push(tail.last()) =~= pieces.last() + tail);
            assert(shorter.push(tail.last()) =~= tail);
        }
    }
}

/// A `.gitignore` whose last line is `r` has a line that is `r`, when `r` is one line and
/// nothing around it is white space.
proof fn lemma_last_line(front: Seq<char>, r: Seq<char>)
    requires
        front.len() == 0 || front.last() == '\n',
        !r.contains('\n'),
        r.len() > 0,
        trimmed(r) == r,
    ensures
        exists|k: int| 0 <= k < str_lines(front + r.push('\n')).len() && trimmed(#[trigger] str_lines(front + r.push('\n'))[k]) == r,
{
    let text = front + r.push('\n');
    assert(text =~= (front + r).push('\n'));
    lemma_split_tail(front, r, '\n');
    lemma_split_nonempty(front, '\n');
    let pieces = split_on(front, '\n');
    assert(pieces.last() =~= Seq::<char>::empty()) by {
        if front.len() > 0 {
            assert(split_on(front, '\n') == split_on(front.drop_last(), '\n').push(Seq::<char>::empty()));
        } else {
            assert(split_on(front, '\n') == seq![Seq::<char>::empty()]);
        }
    }
    assert(pieces.last() + r =~= r);
    let all = split_on(text, '\n');
    assert(text.drop_last() =~= front + r);
    assert(all == split_on(front + r, '\n').push(Seq::<char>::empty()));
    let lines = str_lines(text);
    let k = pieces.len() - 1;
    assert(split_on(front + r, '\n')[k] == r);
    assert(lines.len() == split_on(front + r, '\n').len());
    assert(r.last() != '\r') by {
        if r.last() == '\r' {
            lemma_trimmed_shorter(r);
        }
    }
    assert(lines[k] == r);
}

/// Adding a rule and asking again adds nothing: the same rule is written once.
///
/// For a rule that is one line with no white space at its ends, which is every rule but those of
/// a path holding a line break or ending in white space.
pub proof fn law_a_rule_is_written_once(held: Seq<char>, path: Seq<char>, kind: Kind)
    requires
        !rule(path, kind).contains('\n'),
        trimmed(rule(path, kind)) == rule(path, kind),
    ensures
        appended(held, path, kind) matches Some(more) ==> appended(held + more, path, kind) is None,
{
    let r = rule(path, kind);
    assert(r.len() > 0 && r[0] == '/');
    match appended(held, path, kind) {
        Some(more) => {
            if held.len() > 0 && held.last() != '\n' {
                let front = held.push('\n');
                assert(held + more =~= front + r.push('\n'));
                lemma_last_line(front, r);
            } else {
                assert(held + more =~= held + r.push('\n'));
                lemma_last_line(held, r);
            }
        },
        None => {},
    }
}

} // verus!
