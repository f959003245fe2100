//! What git thinks has changed, as the gutter shows it.
//!
//! A unified diff taken with no context is read for its `@@` lines, each of which says where a
//! change is and how large it is on each side; that is enough to tell the three kinds apart.
//! Running git and handing its output over is the caller's part.

use vstd::prelude::*;

use crate::text::{is_space, space, str_lines, str_lines_of, words, words_of};

verus! {

/// What happened to a run of lines.
#[derive(Clone, Copy, PartialEq, Eq, Structural, Debug)]
pub enum Change {
    /// They are new.
    Added,
    /// They are different from what is committed.
    Changed,
    /// Something was taken out here. The mark sits on the line below the hole.
    Removed,
}

/// One run of lines that changed.
#[derive(Clone, Copy, PartialEq, Eq, Structural, Debug)]
pub struct Hunk {
    /// The first line it covers, counting from zero the way an editor does.
    pub line: usize,
    /// How many lines. A removal covers none, and is drawn on one.
    pub count: usize,
    /// What happened.
    pub change: Change,
}

impl Hunk {
    /// The end of the lines it covers: a removal is drawn on one line.
    pub open spec fn end(self) -> int {
        self.line + if self.count > 0 { self.count as int } else { 1 }
    }

    /// Which lines it covers, as an editor would ask.
    pub fn lines(&self) -> (out: core::ops::Range<usize>)
        requires
            self.end() <= usize::MAX,
        ensures
            out.start == self.line,
            out.end == self.end(),
    {
        let count = if self.count > 1 { self.count } else { 1 };
        self.line..self.line + count
    }

    /// Whether `line` is in it.
    pub fn covers(&self, line: usize) -> (out: bool)
        ensures
            out == (self.line <= line && line < self.end()),
    {
        let count: usize = if self.count > 1 { self.count } else { 1 };
        self.line <= line && line - self.line < count
    }
}

/// The value of a run of decimal digits.
pub open spec fn digits_value(digits: Seq<char>) -> nat
    decreases digits.len(),
{
    if digits.len() == 0 {
        0
    } else {
        digits_value(digits.drop_last()) * 10 + (digits.last() as nat - 48) as nat
    }
}

/// Whether every character of `text` is a decimal digit.
pub open spec fn all_digits(text: Seq<char>) -> bool {
    forall|i: int| 0 <= i < text.len() ==> '0' <= #[trigger] text[i] && text[i] <= '9'
}

/// What `text.parse::<usize>()` gives: a run of decimal digits, perhaps after a plus sign, whose
/// value fits.
pub open spec fn number(text: Seq<char>) -> Option<nat> {
    let digits = if text.len() > 0 && text[0] == '+' { text.skip(1) } else { text };
    if digits.len() > 0 && all_digits(digits) && digits_value(digits) <= usize::MAX {
        Some(digits_value(digits))
    } else {
        None
    }
}

/// `digits_value` only grows as digits are added.
proof fn lemma_digits_grow(digits: Seq<char>, k: int)
    requires
        0 <= k <= digits.len(),
        all_digits(digits),
    ensures
        digits_value(digits.take(k)) <= digits_value(digits),
    decreases digits.len() - k,
{
    if k < digits.len() {
        lemma_digits_grow(digits, k + 1);
        assert(digits.take(k + 1).drop_last() =~= digits.take(k));
    } else {
        assert(digits.take(k) =~= digits);
    }
}

/// The number written in `cs[from..to]`.
fn number_in(cs: &[char], from: usize, to: usize) -> (out: Option<usize>)
    requires
        from <= to <= cs@.len(),
    ensures
        match out {
            Some(n) => number(cs@.subrange(from as int, to as int)) == Some(n as nat),
            None => number(cs@.subrange(from as int, to as int)) is None,
        },
{
    let ghost text = cs@.subrange(from as int, to as int);
    let start = if from < to && cs[from] == '+' { from + 1 } else { from };
    let ghost digits = cs@.subrange(start as int, to as int);
    assert(digits =~= if text.len() > 0 && text[0] == '+' { text.skip(1) } else { text });
    if start == to {
        return None;
    }
    let mut value: usize = 0;
    let mut i: usize = start;
    while i < to
        invariant
            start <= i <= to <= cs@.len(),
            text == cs@.subrange(from as int, to as int),
            digits == cs@.subrange(start as int, to as int),
            digits == if text.len() > 0 && text[0] == '+' { text.skip(1) } else { text },
            all_digits(digits.take(i - start)),
            value == digits_value(digits.take(i - start)),
        decreases to - i,
    {
        let c = cs[i];
        assert(digits.take(i + 1 - start).drop_last() =~= digits.take(i - start));
        assert(digits.take(i + 1 - start).last() == c);
        if c < '0' || c > '9' {
            assert(!all_digits(digits)) by {
                assert(digits[i - start] == c);
            }
            return None;
        }
        let d = (c as u32 - 48) as usize;
        let grown = match value.checked_mul(10) {
            Some(v) => v.checked_add(d),
            None => None,
        };
        match grown {
            Some(v) => {
                value = v;
            },
            None => {
                proof {
                    if all_digits(digits) {
                        lemma_digits_grow(digits, i + 1 - start);
                    }
                }
                return None;
            },
        }
        i = i + 1;
    }
    assert(digits.take(to - start) =~= digits);
    Some(value)
}

/// One `start,count` half of a hunk header. A half with no comma is one line.
pub open spec fn side(text: Seq<char>) -> Option<(nat, nat)> {
    if exists|k: int| 0 <= k < text.len() && text[k] == ',' {
        let k = choose|k: int| 0 <= k < text.len() && text[k] == ',' && forall|j: int| 0 <= j < k ==> text[j] != ',';
        match (number(text.take(k)), number(text.skip(k + 1))) {
            (Some(start), Some(count)) => Some((start, count)),
            _ => None,
        }
    } else {
        match number(text) {
            Some(start) => Some((start, 1)),
            None => None,
        }
    }
}

/// The half of a hunk header in `cs`.
fn side_of(cs: &[char]) -> (out: Option<(usize, usize)>)
    ensures
        match out {
            Some((a, b)) => side(cs@) == Some((a as nat, b as nat)),
            None => side(cs@) is None,
        },
{
    let mut k: usize = 0;
    while k < cs.len() && cs[k] != ','
        invariant
            k <= cs@.len(),
            forall|j: int| 0 <= j < k ==> cs@[j] != ',',
        decreases cs.len() - k,
    {
        k = k + 1;
    }
    if k < cs.len() {
        proof {
            let c = choose|c: int| 0 <= c < cs@.len() && cs@[c] == ',' && forall|j: int| 0 <= j < c ==> cs@[j] != ',';
            assert(cs@[k as int] == ',');
            if c < k {
                assert(cs@[c] != ',');
            }
            if c > k {
                assert(cs@[k as int] != ',');
            }
            assert(cs@.take(k as int) =~= cs@.subrange(0, k as int));
            assert(cs@.skip(k + 1) =~= cs@.subrange(k + 1, cs@.len() as int));
        }
        let start = number_in(cs, 0, k);
        let count = number_in(cs, k + 1, cs.len());
        match (start, count) {
            (Some(a), Some(b)) => Some((a, b)),
            _ => None,
        }
    } else {
        assert(cs@.subrange(0, cs@.len() as int) =~= cs@);
        match number_in(cs, 0, cs.len()) {
            Some(a) => Some((a, 1)),
            None => None,
        }
    }
}

/// The two halves of a hunk header after its `@@ `: the first word, after a minus sign, and the
/// second, after a plus sign.
pub open spec fn halves(rest: Seq<char>) -> Option<((nat, nat), (nat, nat))> {
    let ws = words(rest);
    if ws.len() >= 2 && ws[0][0] == '-' && ws[1][0] == '+' {
        match (side(ws[0].skip(1)), side(ws[1].skip(1))) {
            (Some(before), Some(after)) => Some((before, after)),
            _ => None,
        }
    } else {
        None
    }
}

/// The hunk a header `before`, `after` stands for: new lines when nothing was on the old side,
/// a removal when nothing is on the new one, a change otherwise, and nothing when neither side
/// has lines.
pub open spec fn classify(before: (nat, nat), after: (nat, nat)) -> Option<Hunk> {
    let at = if after.0 == 0 { 0 } else { after.0 - 1 };
    if before.1 == 0 && after.1 > 0 {
        Some(Hunk { line: at as usize, count: after.1 as usize, change: Change::Added })
    } else if before.1 > 0 && after.1 == 0 {
        Some(Hunk { line: after.0 as usize, count: 0, change: Change::Removed })
    } else if after.1 > 0 {
        Some(Hunk { line: at as usize, count: after.1 as usize, change: Change::Changed })
    } else {
        None
    }
}

/// The hunk a line of the diff stands for, when it is a hunk header.
#[verifier::opaque]
pub open spec fn header_hunk(line: Seq<char>) -> Option<Hunk> {
    if line.len() >= 3 && line.take(3) == "@@ "@ {
        match halves(line.skip(3)) {
            Some((before, after)) => classify(before, after),
            None => None,
        }
    } else {
        None
    }
}

/// What a hunk header marks follows from its two counts alone: lines are new exactly when the
/// old side has none and the new side has some, a removal is marked when the new side has none
/// and the old side has some, and lines on both sides are a change over the new side's lines.
/// A header with no lines on either side marks nothing.
pub proof fn law_a_header_marks_by_its_counts(line: Seq<char>, before: (nat, nat), after: (nat, nat))
    requires
        line.len() >= 3,
        line.take(3) == "@@ "@,
        halves(line.skip(3)) == Some((before, after)),
    ensures
        header_hunk(line) matches Some(h) ==> (h.change == Change::Added <==> before.1 == 0 && after.1 > 0),
        header_hunk(line) matches Some(h) ==> (h.change == Change::Changed <==> before.1 > 0 && after.1 > 0),
        header_hunk(line) matches Some(h) ==> (h.change == Change::Removed <==> before.1 > 0 && after.1 == 0),
        header_hunk(line) is None <==> before.1 == 0 && after.1 == 0,
        header_hunk(line) matches Some(h) ==> h.change != Change::Removed ==> h.count == after.1 && h.line + 1
            == if after.0 == 0 { 1 } else { after.0 },
        header_hunk(line) matches Some(h) ==> h.change == Change::Removed ==> h.count == 0 && h.line == after.0,
{
    reveal(header_hunk);
}

/// The hunks the headers among `lines` stand for, in order.
pub open spec fn hunks_in(lines: Seq<Seq<char>>) -> Seq<Hunk>
    decreases lines.len(),
{
    if lines.len() == 0 {
        seq![]
    } else {
        let init = hunks_in(lines.drop_last());
        match header_hunk(lines.last()) {
            Some(hunk) => init.push(hunk),
            None => init,
        }
    }
}

/// The hunk one line of the diff stands for.
fn hunk_of_line(line: &Vec<char>) -> (out: Option<Hunk>)
    ensures
        out == header_hunk(line@),
{
    proof {
        reveal_strlit("@@ ");
        reveal(header_hunk);
    }
    if line.len() < 3 || line[0] != '@' || line[1] != '@' || line[2] != ' ' {
        proof {
            if line@.len() >= 3 && line@.take(3) == "@@ "@ {
                assert(line@.take(3)[0] == '@' && line@.take(3)[1] == '@' && line@.take(3)[2] == ' ');
            }
        }
        return None;
    }
    assert(line@.take(3) =~= "@@ "@);
    let mut rest: Vec<char> = Vec::new();
    let mut i: usize = 3;
    while i < line.len()
        invariant
            3 <= i <= line@.len(),
            rest@ == line@.subrange(3, i as int),
        decreases line.len() - i,
    {
        rest.push(line[i]);
        assert(rest@ =~= line@.subrange(3, i + 1));
        i = i + 1;
    }
    assert(rest@ =~= line@.skip(3));
    let ws = words_of(rest.as_slice());
    let ghost wv = ws@.map_values(|w: Vec<char>| w@);
    if ws.len() < 2 {
        return None;
    }
    assert(wv[0] == ws@[0]@ && wv[1] == ws@[1]@);
    proof {
        lemma_words_nonempty_each(rest@);
    }
    if ws[0][0] != '-' || ws[1][0] != '+' {
        return None;
    }
    let first = &ws[0];
    let second = &ws[1];
    let mut a: Vec<char> = Vec::new();
    let mut j: usize = 1;
    while j < first.len()
        invariant
            1 <= j <= first@.len(),
            a@ == first@.subrange(1, j as int),
        decreases first.len() - j,
    {
        a.push(first[j]);
        assert(a@ =~= first@.subrange(1, j + 1));
        j = j + 1;
    }
    let mut b: Vec<char> = Vec::new();
    let mut j: usize = 1;
    while j < second.len()
        invariant
            1 <= j <= second@.len(),
            b@ == second@.subrange(1, j as int),
        decreases second.len() - j,
    {
        b.push(second[j]);
        assert(b@ =~= second@.subrange(1, j + 1));
        j = j + 1;
    }
    assert(a@ =~= wv[0].skip(1));
    assert(b@ =~= wv[1].skip(1));
    let before = side_of(a.as_slice());
    let after = side_of(b.as_slice());
    match (before, after) {
        (Some(before), Some(after)) => {
            let at = if after.0 == 0 { 0 } else { after.0 - 1 };
            if before.1 == 0 && after.1 > 0 {
                Some(Hunk { line: at, count: after.1, change: Change::Added })
            } else if before.1 > 0 && after.1 == 0 {
                Some(Hunk { line: after.0, count: 0, change: Change::Removed })
            } else if after.1 > 0 {
                Some(Hunk { line: at, count: after.1, change: Change::Changed })
            } else {
                None
            }
        },
        _ => None,
    }
}

/// Every word is at least one character long.
proof fn lemma_words_nonempty_each(text: Seq<char>)
    ensures
        forall|k: int| 0 <= k < words(text).len() ==> #[trigger] words(text)[k].len() > 0,
    decreases text.len(),
{
    if text.len() > 0 {
        lemma_words_nonempty_each(text.drop_last());
        if !is_space(text.last()) && text.len() >= 2 && !is_space(text[text.len() - 2]) {
            assert(text.drop_last().last() == text[text.len() - 2]);
            crate::text::lemma_words_nonempty(text.drop_last());
        }
    }
}

/// The hunks in a unified diff produced with no context.
///
/// Only the `@@` lines matter at zero context: each says where the change is and how large it is
/// on each side, which is enough to tell the three kinds apart. Anything else is passed over.
pub fn parse(diff: &str) -> (out: Vec<Hunk>)
    ensures
        out@ == hunks_in(str_lines(diff@)),
{
    let lines = str_lines_of(diff);
    let ghost lv = lines@.map_values(|line: Vec<char>| line@);
    let mut out: Vec<Hunk> = Vec::new();
    let mut i: usize = 0;
    while i < lines.len()
        invariant
            i <= lines@.len(),
            lv == lines@.map_values(|line: Vec<char>| line@),
            out@ == hunks_in(lv.take(i as int)),
        decreases lines.len() - i,
    {
        assert(lv.take(i + 1).drop_last() =~= lv.take(i as int));
        assert(lv.take(i + 1).last() == lines@[i as int]@);
        match hunk_of_line(&lines[i]) {
            Some(hunk) => out.push(hunk),
            None => {},
        }
        i = i + 1;
    }
    assert(lv.take(lv.len() as int) =~= lv);
    out
}

/// The first hunk that starts after `line`, if any.
pub open spec fn first_after(hunks: Seq<Hunk>, line: usize) -> Option<int> {
    if exists|k: int| 0 <= k < hunks.len() && hunks[k].line > line {
        Some(choose|k: int| 0 <= k < hunks.len() && hunks[k].line > line && forall|j: int| 0 <= j < k ==> hunks[j].line <= line)
    } else {
        None
    }
}

/// The hunk after `line`, or the first one when none is, wrapping. What `]g` is.
pub fn after(hunks: &[Hunk], line: usize) -> (out: Option<Hunk>)
    ensures
        match first_after(hunks@, line) {
            Some(k) => out == Some(hunks@[k]),
            None => out == if hunks@.len() > 0 { Some(hunks@[0]) } else { None::<Hunk> },
        },
{
    let mut k: usize = 0;
    while k < hunks.len()
        invariant
            k <= hunks@.len(),
            forall|j: int| 0 <= j < k ==> hunks@[j].line <= line,
        decreases hunks.len() - k,
    {
        if hunks[k].line > line {
            proof {
                let c = choose|c: int| 0 <= c < hunks@.len() && hunks@[c].line > line && forall|j: int| 0 <= j < c ==> hunks@[j].line <= line;
                assert(hunks@[k as int].line > line);
                if c < k {
                    assert(hunks@[c].line <= line);
                }
                if c > k {
                    assert(hunks@[k as int].line <= line);
                }
            }
            return Some(hunks[k]);
        }
        k = k + 1;
    }
    if hunks.len() > 0 {
        Some(hunks[0])
    } else {
        None
    }
}

/// The last hunk that starts before `line`, if any.
pub open spec fn last_before(hunks: Seq<Hunk>, line: usize) -> Option<int> {
    if exists|k: int| 0 <= k < hunks.len() && hunks[k].line < line {
        Some(choose|k: int| 0 <= k < hunks.len() && hunks[k].line < line && forall|j: int| k < j < hunks.len() ==> hunks[j].line >= line)
    } else {
        None
    }
}

/// The hunk before `line`, or the last one when none is, wrapping. What `[g` is.
pub fn before(hunks: &[Hunk], line: usize) -> (out: Option<Hunk>)
    ensures
        match last_before(hunks@, line) {
            Some(k) => out == Some(hunks@[k]),
            None => out == if hunks@.len() > 0 { Some(hunks@[hunks@.len() - 1]) } else { None::<Hunk> },
        },
{
    let mut k: usize = hunks.len();
    while k > 0
        invariant
            k <= hunks@.len(),
            forall|j: int| k <= j < hunks@.len() ==> hunks@[j].line >= line,
        decreases k,
    {
        if hunks[k - 1].line < line {
            proof {
                let c = choose|c: int| 0 <= c < hunks@.len() && hunks@[c].line < line && forall|j: int| c < j < hunks@.len() ==> hunks@[j].line >= line;
                assert(hunks@[k - 1].line < line);
                if c < k - 1 {
                    assert(hunks@[k - 1].line >= line);
                }
                if c > k - 1 {
                    assert(hunks@[c].line >= line);
                }
            }
            return Some(hunks[k - 1]);
        }
        k = k - 1;
    }
    if hunks.len() > 0 {
        Some(hunks[hunks.len() - 1])
    } else {
        None
    }
}

} // verus!
