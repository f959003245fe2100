//! Applying chosen hunks to a text, forwards to stage them and backwards to take them out.
//!
//! Staging part of a change means the index must hold a third text: the one you get by applying
//! the chosen hunks to what it holds now. Reading that text and writing the result back belong to
//! the caller; what is here is the text in between, worked out in lines.
//!
//! A hunk is matched against the text by its context. One whose context is not there is refused:
//! a hunk applied at a guess corrupts the file quietly, and the file on disk is the only copy of
//! somebody's work.

use vstd::prelude::*;
use vstd::string::StrSliceExecFns;

use crate::diff::{
    changed, hunk_is, hunks_of, is_script, lemma_counts_monotone, near, news_before, olds_before, runs_of, step_fits,
    DiffHunk, LineKind, Step,
};
use crate::repo::Error;
use crate::text::{
    begins_with, chars_of, decimal, lossy, push_char, push_decimal, push_str, same_text, split_on, string_of, strip_prefix,
    text_of,
};

verus! {

/// The texts of the lines of `hunk` that are context or of kind `changed`, in order. This is what
/// has to be found when a hunk is applied one way, and what is put back the other.
pub open spec fn kept_lines(lines: Seq<crate::diff::Line>, changed: LineKind) -> Seq<Seq<char>>
    decreases lines.len(),
{
    if lines.len() == 0 {
        seq![]
    } else {
        let init = kept_lines(lines.drop_last(), changed);
        if lines.last().kind == LineKind::Context || lines.last().kind == changed {
            init.push(lines.last().text@)
        } else {
            init
        }
    }
}

/// The lines of a hunk that are of one kind, plus the context.
pub fn kept(hunk: &DiffHunk, changed: LineKind) -> (out: Vec<String>)
    ensures
        crate::diff::texts(out@) == kept_lines(hunk.lines@, changed),
{
    let mut out: Vec<String> = Vec::new();
    let mut i: usize = 0;
    while i < hunk.lines.len()
        invariant
            i <= hunk.lines@.len(),
            crate::diff::texts(out@) == kept_lines(hunk.lines@.take(i as int), changed),
        decreases hunk.lines.len() - i,
    {
        assert(hunk.lines@.take(i + 1).drop_last() =~= hunk.lines@.take(i as int));
        let line = &hunk.lines[i];
        if line.kind == LineKind::Context || line.kind == changed {
            out.push(line.text.clone());
        }
        assert(crate::diff::texts(out@) =~= kept_lines(hunk.lines@.take(i + 1), changed));
        i = i + 1;
    }
    assert(hunk.lines@.take(hunk.lines@.len() as int) =~= hunk.lines@);
    out
}

/// Where a hunk starts, counting from zero, on the side it is applied to.
pub open spec fn spec_start_of(hunk: DiffHunk, backwards: bool) -> int {
    let one_based = if backwards { hunk.new_start } else { hunk.old_start };
    if one_based == 0 { 0 } else { one_based - 1 }
}

/// Where a hunk starts, counting from zero.
pub fn start_of(hunk: &DiffHunk, backwards: bool) -> (out: usize)
    ensures
        out == spec_start_of(*hunk, backwards),
{
    let one_based = if backwards { hunk.new_start } else { hunk.old_start };
    one_based.saturating_sub(1) as usize
}

/// Whether `wanted` is in `lines` starting at `at`.
pub open spec fn fits_at(lines: Seq<Seq<char>>, wanted: Seq<Seq<char>>, at: int) -> bool {
    0 <= at && at + wanted.len() <= lines.len() && lines.subrange(at, at + wanted.len()) == wanted
}

/// How far `at` is from `hint`.
pub open spec fn distance(at: int, hint: int) -> int {
    if at >= hint { at - hint } else { hint - at }
}

/// Whether `at` is where [`locate`] finds `wanted`: a place it fits, no further from `hint` than
/// there are lines, and nearer than any other such place, the earlier one winning a tie.
pub open spec fn nearest_fit(lines: Seq<Seq<char>>, wanted: Seq<Seq<char>>, hint: int, at: int) -> bool {
    &&& fits_at(lines, wanted, at)
    &&& distance(at, hint) <= lines.len()
    &&& forall|q: int| #[trigger] fits_at(lines, wanted, q) && distance(q, hint) <= lines.len() ==>
        distance(at, hint) < distance(q, hint) || (distance(at, hint) == distance(q, hint) && at <= q)
}

/// Where [`locate`] finds `wanted` in `lines`, looking out from `hint`.
///
/// Nothing wanted is found at the hint itself, when that is inside the text or at its end.
pub open spec fn spec_locate(lines: Seq<Seq<char>>, wanted: Seq<Seq<char>>, hint: int) -> Option<int> {
    if wanted.len() == 0 {
        if hint <= lines.len() { Some(hint) } else { None }
    } else if exists|at: int| nearest_fit(lines, wanted, hint, at) {
        Some(choose|at: int| nearest_fit(lines, wanted, hint, at))
    } else {
        None
    }
}

/// There is never more than one nearest fit.
pub proof fn lemma_nearest_unique(lines: Seq<Seq<char>>, wanted: Seq<Seq<char>>, hint: int, a: int, b: int)
    requires
        nearest_fit(lines, wanted, hint, a),
        nearest_fit(lines, wanted, hint, b),
    ensures
        a == b,
{
    assert(fits_at(lines, wanted, a));
    assert(fits_at(lines, wanted, b));
}

/// Whether `lines[at..at + wanted.len()]` is `wanted`.
fn fits(lines: &Vec<String>, wanted: &Vec<String>, at: usize) -> (out: bool)
    ensures
        out == fits_at(crate::diff::texts(lines@), crate::diff::texts(wanted@), at as int),
{
    let ghost l = crate::diff::texts(lines@);
    let ghost w = crate::diff::texts(wanted@);
    if at > lines.len() || wanted.len() > lines.len() - at {
        return false;
    }
    let n = lines.len();
    let mut i: usize = 0;
    while i < wanted.len()
        invariant
            n == lines@.len(),
            at + wanted@.len() <= lines@.len(),
            at + i <= lines@.len(),
            i <= wanted@.len(),
            l == crate::diff::texts(lines@),
            w == crate::diff::texts(wanted@),
            forall|j: int| 0 <= j < i ==> l[at + j] == w[j],
        decreases wanted.len() - i,
    {
        if lines[at + i] != wanted[i] {
            assert(l.subrange(at as int, at + w.len())[i as int] != w[i as int]);
            return false;
        }
        i = i + 1;
    }
    assert(l.subrange(at as int, at + w.len()) =~= w);
    true
}

/// Where `wanted` is in `lines`, looking near `hint` first.
///
/// The hint is where the hunk says it is. The search widens from there, nearest first, because a
/// file may have been edited above the hunk since the diff was taken. When the hinted place fits,
/// that is the match: a hunk that fits where it says it does belongs there.
pub fn locate(lines: &Vec<String>, wanted: &Vec<String>, hint: usize) -> (out: Option<usize>)
    ensures
        match out {
            Some(at) => spec_locate(crate::diff::texts(lines@), crate::diff::texts(wanted@), hint as int) == Some(at as int),
            None => spec_locate(crate::diff::texts(lines@), crate::diff::texts(wanted@), hint as int) is None,
        },
{
    let ghost l = crate::diff::texts(lines@);
    let ghost w = crate::diff::texts(wanted@);
    if wanted.len() == 0 {
        return if hint <= lines.len() { Some(hint) } else { None };
    }
    if fits(lines, wanted, hint) {
        proof {
            assert(nearest_fit(l, w, hint as int, hint as int));
            lemma_nearest_unique_choose(l, w, hint as int, hint as int);
        }
        return Some(hint);
    }
    let mut d: usize = 1;
    while d <= lines.len()
        invariant
            1 <= d,
            d <= lines@.len() + 1,
            w.len() > 0,
            l == crate::diff::texts(lines@),
            w == crate::diff::texts(wanted@),
            forall|q: int| #[trigger] fits_at(l, w, q) ==> distance(q, hint as int) >= d,
        decreases lines.len() + 1 - d,
    {
        if hint >= d && fits(lines, wanted, hint - d) {
            proof {
                let at = hint - d;
                assert(nearest_fit(l, w, hint as int, at as int));
                lemma_nearest_unique_choose(l, w, hint as int, at as int);
            }
            return Some(hint - d);
        }
        if hint <= usize::MAX - d && hint + d < lines.len() && fits(lines, wanted, hint + d) {
            proof {
                let at = hint + d;
                assert forall|q: int| #[trigger] fits_at(l, w, q) && distance(q, hint as int) <= l.len()
                    implies distance(at as int, hint as int) < distance(q, hint as int)
                    || (distance(at as int, hint as int) == distance(q, hint as int) && at <= q) by {
                    if distance(q, hint as int) == d && q < at {
                        assert(q == hint - d);
                    }
                }
                assert(nearest_fit(l, w, hint as int, at as int));
                lemma_nearest_unique_choose(l, w, hint as int, at as int);
            }
            return Some(hint + d);
        }
        proof {
            assert forall|q: int| #[trigger] fits_at(l, w, q) implies distance(q, hint as int) >= d + 1 by {
                if distance(q, hint as int) == d {
                    if q < hint {
                        assert(q == hint - d);
                    } else {
                        assert(q == hint + d);
                    }
                }
            }
        }
        if d == lines.len() {
            proof {
                if exists|at: int| nearest_fit(l, w, hint as int, at) {
                    let at = choose|at: int| nearest_fit(l, w, hint as int, at);
                    assert(fits_at(l, w, at));
                }
            }
            return None;
        }
        d = d + 1;
    }
    proof {
        if exists|at: int| nearest_fit(l, w, hint as int, at) {
            let at = choose|at: int| nearest_fit(l, w, hint as int, at);
            assert(fits_at(l, w, at));
        }
    }
    None
}

/// The nearest fit is the one `spec_locate` chooses.
proof fn lemma_nearest_unique_choose(lines: Seq<Seq<char>>, wanted: Seq<Seq<char>>, hint: int, at: int)
    requires
        wanted.len() > 0,
        nearest_fit(lines, wanted, hint, at),
    ensures
        spec_locate(lines, wanted, hint) == Some(at),
{
    let chosen = choose|a: int| nearest_fit(lines, wanted, hint, a);
    lemma_nearest_unique(lines, wanted, hint, chosen, at);
}


/// The lines a text falls into for applying hunks: cut at each newline, with no empty last line
/// after a newline that ends the text, and none at all for no text.
pub open spec fn text_lines(text: Seq<char>) -> Seq<Seq<char>> {
    if text.len() == 0 {
        seq![]
    } else if text.last() == '\n' {
        split_on(text, '\n').drop_last()
    } else {
        split_on(text, '\n')
    }
}

/// `lines` joined with a newline between each two.
pub open spec fn joined(lines: Seq<Seq<char>>) -> Seq<char>
    decreases lines.len(),
{
    if lines.len() == 0 {
        seq![]
    } else if lines.len() == 1 {
        lines[0]
    } else {
        joined(lines.drop_last()) + seq!['\n'] + lines.last()
    }
}

/// The text `lines` make, with a newline at the end when the text they came from had one.
pub open spec fn finished(lines: Seq<Seq<char>>, ends_with_newline: bool) -> Seq<char> {
    if ends_with_newline && joined(lines).len() > 0 {
        joined(lines).push('\n')
    } else {
        joined(lines)
    }
}

/// What applying `hunk` has to find.
pub open spec fn expected(hunk: DiffHunk, backwards: bool) -> Seq<Seq<char>> {
    kept_lines(hunk.lines@, if backwards { LineKind::Added } else { LineKind::Removed })
}

/// What applying `hunk` puts in its place.
pub open spec fn replacement(hunk: DiffHunk, backwards: bool) -> Seq<Seq<char>> {
    kept_lines(hunk.lines@, if backwards { LineKind::Removed } else { LineKind::Added })
}

/// `lines` with `count` of them from `at` replaced by `with`.
pub open spec fn spliced(lines: Seq<Seq<char>>, at: int, count: int, with: Seq<Seq<char>>) -> Seq<Seq<char>> {
    lines.subrange(0, at) + with + lines.subrange(at + count, lines.len() as int)
}

/// Whether `order` is the order hunks are applied in: every one of them once, from the one that
/// starts furthest down to the one that starts first, hunks that start at the same line in the
/// order they were given.
///
/// Back to front, so that each hunk's line numbers still refer to where they were: applying one
/// hunk moves everything after it.
pub open spec fn is_order(hunks: Seq<DiffHunk>, order: Seq<int>, backwards: bool) -> bool {
    &&& order.len() == hunks.len()
    &&& forall|k: int| 0 <= k < order.len() ==> 0 <= #[trigger] order[k] < hunks.len()
    &&& forall|j: int| 0 <= j < hunks.len() ==> #[trigger] order.contains(j)
    &&& forall|k: int, l: int|
        #![trigger order[k], order[l]]
        0 <= k < l < order.len() ==> spec_start_of(hunks[order[k]], backwards) > spec_start_of(
            hunks[order[l]],
            backwards,
        ) || (spec_start_of(hunks[order[k]], backwards) == spec_start_of(hunks[order[l]], backwards)
            && order[k] < order[l])
}

/// The lines after applying the hunks `order` names, in that order, or where the first one that
/// did not fit says it starts.
pub open spec fn apply_in_order(
    lines: Seq<Seq<char>>,
    hunks: Seq<DiffHunk>,
    order: Seq<int>,
    backwards: bool,
) -> Result<Seq<Seq<char>>, int>
    decreases order.len(),
{
    if order.len() == 0 {
        Ok(lines)
    } else {
        match apply_in_order(lines, hunks, order.drop_last(), backwards) {
            Err(start) => Err(start),
            Ok(current) => {
                let hunk = hunks[order.last()];
                let start = spec_start_of(hunk, backwards);
                match spec_locate(current, expected(hunk, backwards), start) {
                    None => Err(start),
                    Some(at) => Ok(spliced(current, at, expected(hunk, backwards).len() as int, replacement(hunk, backwards))),
                }
            },
        }
    }
}

/// What refusing a hunk that starts at line `start`, counting from zero, says.
pub open spec fn misplaced(start: int) -> Seq<char> {
    "the change at line "@ + decimal((start + 1) as nat) + " is not where it says it is"@
}

/// Whether `out` is what applying `hunks` to `base` comes to.
pub open spec fn applied(base: Seq<u8>, hunks: Seq<DiffHunk>, backwards: bool, out: Result<Vec<u8>, Error>) -> bool {
    exists|order: Seq<int>|
        #![trigger is_order(hunks, order, backwards)]
        is_order(hunks, order, backwards) && match apply_in_order(text_lines(text_of(base)), hunks, order, backwards) {
            Ok(lines) => out matches Ok(bytes) && bytes@ == vstd::utf8::encode_utf8(
                finished(lines, base.len() == 0 || base.last() == 10u8),
            ),
            Err(start) => out matches Err(Error::Git(said)) && said@ == misplaced(start),
        }
}

/// The order to apply `hunks` in: furthest down first, ties in the order given.
fn order_of(hunks: &[DiffHunk], backwards: bool) -> (out: Vec<usize>)
    ensures
        is_order(hunks@, out@.map_values(|i: usize| i as int), backwards),
{
    let mut ordered: Vec<usize> = Vec::new();
    let mut i: usize = 0;
    while i < hunks.len()
        invariant
            i <= hunks@.len(),
            ordered@.len() == i,
            forall|k: int| 0 <= k < ordered@.len() ==> #[trigger] ordered@[k] < i,
            forall|j: int| 0 <= j < i ==> #[trigger] ordered@.contains(j as usize),
            forall|k: int, l: int|
                #![trigger ordered@[k], ordered@[l]]
                0 <= k < l < ordered@.len() ==> spec_start_of(hunks@[ordered@[k] as int], backwards) > spec_start_of(
                    hunks@[ordered@[l] as int],
                    backwards,
                ) || (spec_start_of(hunks@[ordered@[k] as int], backwards) == spec_start_of(hunks@[ordered@[l] as int], backwards)
                    && ordered@[k] < ordered@[l]),
        decreases hunks.len() - i,
    {
        let key = start_of(&hunks[i], backwards);
        let mut p: usize = 0;
        while p < ordered.len() && start_of(&hunks[ordered[p]], backwards) >= key
            invariant
                p <= ordered@.len(),
                i < hunks@.len(),
                key == spec_start_of(hunks@[i as int], backwards),
                forall|k: int| 0 <= k < ordered@.len() ==> #[trigger] ordered@[k] < i,
                forall|q: int| 0 <= q < p ==> spec_start_of(hunks@[#[trigger] ordered@[q] as int], backwards) >= key,
            decreases ordered.len() - p,
        {
            p = p + 1;
        }
        let ghost before = ordered@;
        ordered.insert(p, i);
        proof {
            assert forall|k: int| 0 <= k < ordered@.len() implies #[trigger] ordered@[k] < i + 1 by {
                if k < p {
                    assert(ordered@[k] == before[k]);
                } else if k > p {
                    assert(ordered@[k] == before[k - 1]);
                }
            }
            assert forall|j: int| 0 <= j < i + 1 implies #[trigger] ordered@.contains(j as usize) by {
                if j < i {
                    assert(before.contains(j as usize));
                    let k = choose|k: int| 0 <= k < before.len() && before[k] == j as usize;
                    if k < p {
                        assert(ordered@[k] == before[k]);
                    } else {
                        assert(ordered@[k + 1] == before[k]);
                    }
                } else {
                    assert(ordered@[p as int] == i);
                }
            }
            assert forall|k: int, l: int|
                #![trigger ordered@[k], ordered@[l]]
                0 <= k < l < ordered@.len() implies spec_start_of(hunks@[ordered@[k] as int], backwards) > spec_start_of(
                    hunks@[ordered@[l] as int],
                    backwards,
                ) || (spec_start_of(hunks@[ordered@[k] as int], backwards) == spec_start_of(hunks@[ordered@[l] as int], backwards)
                    && ordered@[k] < ordered@[l]) by {
                if l < p {
                    assert(ordered@[k] == before[k] && ordered@[l] == before[l]);
                } else if l == p {
                    assert(ordered@[k] == before[k]);
                    assert(spec_start_of(hunks@[before[k] as int], backwards) >= key);
                } else if k < p {
                    assert(ordered@[k] == before[k] && ordered@[l] == before[l - 1]);
                } else if k == p {
                    assert(ordered@[l] == before[l - 1]);
                    assert(spec_start_of(hunks@[before[p as int] as int], backwards) < key);
                    if l - 1 > p {
                        assert(before[p as int] == ordered@[p + 1]);
                    }
                } else {
                    assert(ordered@[k] == before[k - 1] && ordered@[l] == before[l - 1]);
                }
            }
        }
        i = i + 1;
    }
    proof {
        let view = ordered@.map_values(|i: usize| i as int);
        assert forall|j: int| 0 <= j < hunks@.len() implies #[trigger] view.contains(j) by {
            assert(ordered@.contains(j as usize));
            let k = choose|k: int| 0 <= k < ordered@.len() && ordered@[k] == j as usize;
            assert(view[k] == j);
        }
    }
    ordered
}

/// The lines of `text`, cut as [`text_lines`] cuts them.
fn cut(text: &str) -> (out: Vec<String>)
    ensures
        crate::diff::texts(out@) == text_lines(text@),
{
    let t = chars_of(text);
    let mut done: Vec<String> = Vec::new();
    let mut current: Vec<char> = Vec::new();
    let mut i: usize = 0;
    assert(t@.take(0) =~= Seq::<char>::empty());
    while i < t.len()
        invariant
            i <= t@.len(),
            split_on(t@.take(i as int), '\n').len() == done@.len() + 1,
            forall|j: int| #![trigger done@[j]] 0 <= j < done@.len() ==> done@[j]@ == split_on(t@.take(i as int), '\n')[j],
            current@ == split_on(t@.take(i as int), '\n').last(),
        decreases t.len() - i,
    {
        assert(t@.take(i + 1).drop_last() =~= t@.take(i as int));
        if t[i] == '\n' {
            done.push(crate::text::string_of(current.as_slice()));
            current = Vec::new();
            assert(current@ =~= Seq::<char>::empty());
        } else {
            current.push(t[i]);
        }
        i = i + 1;
    }
    assert(t@.take(t@.len() as int) =~= t@);
    if t.len() == 0 {
        let none: Vec<String> = Vec::new();
        assert(crate::diff::texts(none@) =~= text_lines(text@));
        return none;
    }
    if t[t.len() - 1] != '\n' {
        done.push(crate::text::string_of(current.as_slice()));
    }
    assert(crate::diff::texts(done@) =~= text_lines(text@));
    done
}

/// `lines` joined with newlines, and one more at the end when `ends_with_newline` and there is
/// any text.
fn join(lines: &Vec<String>, ends_with_newline: bool) -> (out: String)
    ensures
        out@ == finished(crate::diff::texts(lines@), ends_with_newline),
{
    let ghost ls = crate::diff::texts(lines@);
    let mut out = String::new();
    let mut i: usize = 0;
    while i < lines.len()
        invariant
            i <= lines@.len(),
            ls == crate::diff::texts(lines@),
            out@ == joined(ls.take(i as int)),
        decreases lines.len() - i,
    {
        assert(ls.take(i + 1).drop_last() =~= ls.take(i as int));
        if i > 0 {
            push_char(&mut out, '\n');
        }
        push_str(&mut out, lines[i].as_str());
        assert(out@ =~= joined(ls.take(i + 1)));
        i = i + 1;
    }
    assert(ls.take(ls.len() as int) =~= ls);
    if ends_with_newline && out.as_str().unicode_len() > 0 {
        push_char(&mut out, '\n');
    }
    out
}

/// Applies `hunks` to `base`, or undoes them when `backwards`.
///
/// Works in lines, matching each hunk against the text by its context; a hunk whose context is
/// not there is refused, naming the line it says it starts at.
pub fn apply(base: &[u8], hunks: &[DiffHunk], backwards: bool) -> (out: Result<Vec<u8>, Error>)
    ensures
        applied(base@, hunks@, backwards, out),
{
    let ends_with_newline = base.len() == 0 || base[base.len() - 1] == 10u8;
    let text = lossy(base);
    let mut lines = cut(text.as_str());
    let ordered = order_of(hunks, backwards);
    let ghost order = ordered@.map_values(|i: usize| i as int);
    let ghost initial = text_lines(text_of(base@));
    let mut k: usize = 0;
    while k < ordered.len()
        invariant
            k <= ordered@.len(),
            order == ordered@.map_values(|i: usize| i as int),
            is_order(hunks@, order, backwards),
            initial == text_lines(text_of(base@)),
            apply_in_order(initial, hunks@, order.take(k as int), backwards) == Ok::<Seq<Seq<char>>, int>(crate::diff::texts(lines@)),
        decreases ordered.len() - k,
    {
        assert(order.take(k + 1).drop_last() =~= order.take(k as int));
        assert(order.take(k + 1).last() == ordered@[k as int] as int);
        let hunk = &hunks[ordered[k]];
        let (find, put) = if backwards {
            (kept(hunk, LineKind::Added), kept(hunk, LineKind::Removed))
        } else {
            (kept(hunk, LineKind::Removed), kept(hunk, LineKind::Added))
        };
        let start = start_of(hunk, backwards);
        match locate(&lines, &find, start) {
            None => {
                let mut said = String::new();
                push_str(&mut said, "the change at line ");
                push_decimal(&mut said, start as u64 + 1);
                push_str(&mut said, " is not where it says it is");
                proof {
                    let h = hunks@[order.take(k + 1).last()];
                    assert(h == *hunk);
                    assert(crate::diff::texts(find@) == expected(h, backwards));
                    assert(apply_in_order(initial, hunks@, order.take(k + 1), backwards) == Err::<Seq<Seq<char>>, int>(start as int));
                    lemma_apply_stops(initial, hunks@, order, k as int + 1, backwards);
                    assert(said@ == misplaced(start as int));
                }
                let out = Err(Error::Git(said));
                assert(applied(base@, hunks@, backwards, out));
                return out;
            },
            Some(at) => {
                proof {
                    let l = crate::diff::texts(lines@);
                    let w = crate::diff::texts(find@);
                    if w.len() > 0 {
                        let c = choose|a: int| nearest_fit(l, w, start as int, a);
                        assert(nearest_fit(l, w, start as int, c));
                    }
                    assert(at + find@.len() <= lines@.len());
                }
                let mut next: Vec<String> = Vec::new();
                let mut j: usize = 0;
                while j < at
                    invariant
                        j <= at,
                        at + find@.len() <= lines@.len(),
                        lines@.len() == lines.len(),
                        crate::diff::texts(next@) == crate::diff::texts(lines@).subrange(0, j as int),
                    decreases at - j,
                {
                    let ghost prev = next@;
                    next.push(lines[j].clone());
                    proof {
                        crate::diff::lemma_texts_push(prev, lines@[j as int]);
                    }
                    assert(crate::diff::texts(next@) =~= crate::diff::texts(lines@).subrange(0, j + 1));
                    j = j + 1;
                }
                let mut j: usize = 0;
                while j < put.len()
                    invariant
                        j <= put@.len(),
                        put@.len() == put.len(),
                        at + find@.len() <= lines@.len(),
                        crate::diff::texts(next@) == crate::diff::texts(lines@).subrange(0, at as int) + crate::diff::texts(put@).take(j as int),
                    decreases put.len() - j,
                {
                    let ghost prev = next@;
                    next.push(put[j].clone());
                    proof {
                        crate::diff::lemma_texts_push(prev, put@[j as int]);
                    }
                    assert(crate::diff::texts(next@) =~= crate::diff::texts(lines@).subrange(0, at as int) + crate::diff::texts(put@).take(j + 1));
                    j = j + 1;
                }
                let mut j: usize = at + find.len();
                while j < lines.len()
                    invariant
                        at + find@.len() <= j <= lines@.len(),
                        lines@.len() == lines.len(),
                        crate::diff::texts(next@) == crate::diff::texts(lines@).subrange(0, at as int) + crate::diff::texts(put@)
                            + crate::diff::texts(lines@).subrange(at + find@.len(), j as int),
                    decreases lines.len() - j,
                {
                    let ghost prev = next@;
                    next.push(lines[j].clone());
                    proof {
                        crate::diff::lemma_texts_push(prev, lines@[j as int]);
                    }
                    assert(crate::diff::texts(next@) =~= crate::diff::texts(lines@).subrange(0, at as int) + crate::diff::texts(put@)
                        + crate::diff::texts(lines@).subrange(at + find@.len(), j + 1));
                    j = j + 1;
                }
                assert(crate::diff::texts(put@).take(put@.len() as int) =~= crate::diff::texts(put@));
                lines = next;
            },
        }
        k = k + 1;
    }
    assert(order.take(ordered@.len() as int) =~= order);
    let out = join(&lines, ends_with_newline);
    let bytes = out.as_str().as_bytes_vec();
    assert(base@.len() > 0 ==> base@.last() == base@[base@.len() - 1]);
    Ok(bytes)
}

/// Once a hunk does not fit, applying more after it changes nothing: the first refusal stands.
proof fn lemma_apply_stops(lines: Seq<Seq<char>>, hunks: Seq<DiffHunk>, order: Seq<int>, k: int, backwards: bool)
    requires
        0 <= k <= order.len(),
        apply_in_order(lines, hunks, order.take(k), backwards) is Err,
    ensures
        apply_in_order(lines, hunks, order, backwards) == apply_in_order(lines, hunks, order.take(k), backwards),
    decreases order.len() - k,
{
    if k < order.len() {
        assert(order.take(k + 1).drop_last() =~= order.take(k));
        lemma_apply_stops(lines, hunks, order, k + 1, backwards);
    } else {
        assert(order.take(k) =~= order);
    }
}

/// Whether untracking `path` takes the index entry `entry` with it: the entry itself, and
/// everything under it as a directory, but not a neighbour whose name merely begins the same.
pub open spec fn untracked_with(path: Seq<char>, entry: Seq<char>) -> bool {
    entry == path || begins_with(entry, path.push('/'))
}

/// Whether untracking `path` takes the index entry `entry` with it.
pub fn untracks(path: &str, entry: &str) -> (out: bool)
    ensures
        out == untracked_with(path@, entry@),
{
    if same_text(path, entry) {
        return true;
    }
    let mut under = string_of(chars_of(path).as_slice());
    push_char(&mut under, '/');
    strip_prefix(entry, under.as_str()).is_some()
}

/// Over a stretch of steps that all keep their line, both texts advance together and agree.
proof fn lemma_keep_stretch(s: Seq<Step>, old: Seq<Seq<char>>, new: Seq<Seq<char>>, a: int, b: int)
    requires
        0 <= a <= b <= s.len(),
        forall|k: int| 0 <= k < s.len() ==> #[trigger] step_fits(s, k, old, new),
        forall|p: int| a <= p < b ==> (#[trigger] s[p]) is Keep,
        olds_before(s, s.len() as int) == old.len(),
        news_before(s, s.len() as int) == new.len(),
    ensures
        olds_before(s, b) - olds_before(s, a) == b - a,
        news_before(s, b) - news_before(s, a) == b - a,
        old.subrange(olds_before(s, a), olds_before(s, b)) == new.subrange(news_before(s, a), news_before(s, b)),
    decreases b - a,
{
    lemma_counts_monotone(s, a, b);
    lemma_counts_monotone(s, b, s.len() as int);
    if b > a {
        lemma_keep_stretch(s, old, new, a, b - 1);
        assert(step_fits(s, b - 1, old, new));
        let o = olds_before(s, b - 1);
        let n = news_before(s, b - 1);
        assert(s[b - 1] is Keep);
        assert(olds_before(s, b) == o + 1);
        assert(news_before(s, b) == n + 1);
        assert(old.subrange(olds_before(s, a), o + 1) =~= old.subrange(olds_before(s, a), o).push(old[o]));
        assert(new.subrange(news_before(s, a), n + 1) =~= new.subrange(news_before(s, a), n).push(new[n]));
    } else {
        assert(old.subrange(olds_before(s, a), olds_before(s, b)) =~= Seq::<Seq<char>>::empty());
        assert(new.subrange(news_before(s, a), news_before(s, b)) =~= Seq::<Seq<char>>::empty());
    }
}

/// A step that no hunk covers keeps its line: every change is near itself, so some hunk holds it.
proof fn lemma_outside_keeps(s: Seq<Step>, runs: Seq<(int, int)>, p: int)
    requires
        runs_of(s, runs, s.len() as int),
        0 <= p < s.len(),
        forall|k: int| 0 <= k < runs.len() ==> !(runs[k].0 <= p < #[trigger] runs[k].1),
    ensures
        s[p] is Keep,
{
    if !(s[p] is Keep) {
        assert(changed(s, p));
        assert(near(s, p, s.len() as int));
        let k = choose|k: int| 0 <= k < runs.len() && runs[k].0 <= p < #[trigger] runs[k].1;
    }
}

/// What the first `j` lines of a hunk hold of each side: the old text it walks, context and
/// removed lines, and the new text it walks, context and added lines.
proof fn lemma_kept_prefix(
    h: DiffHunk,
    s: Seq<Step>,
    old: Seq<Seq<char>>,
    new: Seq<Seq<char>>,
    from: int,
    to: int,
    j: int,
)
    requires
        hunk_is(h, s, old, new, from, to),
        0 <= from <= to <= s.len(),
        0 <= j <= to - from,
        forall|k: int| 0 <= k < s.len() ==> #[trigger] step_fits(s, k, old, new),
        olds_before(s, s.len() as int) == old.len(),
        news_before(s, s.len() as int) == new.len(),
    ensures
        kept_lines(h.lines@.take(j), LineKind::Removed) == old.subrange(olds_before(s, from), olds_before(s, from + j)),
        kept_lines(h.lines@.take(j), LineKind::Added) == new.subrange(news_before(s, from), news_before(s, from + j)),
    decreases j,
{
    lemma_counts_monotone(s, from, from + j);
    lemma_counts_monotone(s, from + j, s.len() as int);
    let o0 = olds_before(s, from);
    let n0 = news_before(s, from);
    if j == 0 {
        assert(h.lines@.take(0) =~= Seq::<crate::diff::Line>::empty());
        assert(old.subrange(o0, o0) =~= Seq::<Seq<char>>::empty());
        assert(new.subrange(n0, n0) =~= Seq::<Seq<char>>::empty());
    } else {
        lemma_kept_prefix(h, s, old, new, from, to, j - 1);
        let l = h.lines@.take(j);
        assert(l.drop_last() =~= h.lines@.take(j - 1));
        assert(l.last() == h.lines@[j - 1]);
        let i = from + j - 1;
        assert(step_fits(s, i, old, new));
        assert(crate::diff::line_is(h.lines@[j - 1], s[from + (j - 1)], old, new));
        let o = olds_before(s, i);
        let n = news_before(s, i);
        lemma_counts_monotone(s, i, s.len() as int);
        lemma_counts_monotone(s, from, i);
        match s[i] {
            Step::Keep(a, b) => {
                assert(old.subrange(o0, o + 1) =~= old.subrange(o0, o).push(old[o]));
                assert(new.subrange(n0, n + 1) =~= new.subrange(n0, n).push(new[n]));
            },
            Step::Remove(a) => {
                assert(old.subrange(o0, o + 1) =~= old.subrange(o0, o).push(old[o]));
            },
            Step::Add(b) => {
                assert(new.subrange(n0, n + 1) =~= new.subrange(n0, n).push(new[n]));
            },
        }
    }
}

/// A hunk starts, on each side, where the first line it walks of that side is; and a hunk that
/// walks no line of one side is the whole script, which that side is empty for.
proof fn lemma_hunk_start(
    h: DiffHunk,
    s: Seq<Step>,
    old: Seq<Seq<char>>,
    new: Seq<Seq<char>>,
    runs: Seq<(int, int)>,
    k: int,
)
    requires
        runs_of(s, runs, s.len() as int),
        0 <= k < runs.len(),
        hunk_is(h, s, old, new, runs[k].0, runs[k].1),
    ensures
        spec_start_of(h, false) == olds_before(s, runs[k].0),
        spec_start_of(h, true) == news_before(s, runs[k].0),
        h.old_count == 0 ==> runs[k].0 == 0 && runs[k].1 == s.len(),
        h.new_count == 0 ==> runs[k].0 == 0 && runs[k].1 == s.len(),
{
    let from = runs[k].0;
    let to = runs[k].1;
    lemma_counts_monotone(s, from, to);
    lemma_counts_monotone(s, from + 1, to);
    lemma_counts_monotone(s, from, to - 1);
    lemma_counts_monotone(s, 0, from);
    if h.old_count == 0 {
        assert(s[from] is Add);
        assert(s[to - 1] is Add);
        if from > 0 {
            assert(changed(s, from));
            assert(near(s, from - 1, s.len() as int));
        }
        if to < s.len() {
            assert(changed(s, to - 1));
            assert(near(s, to, s.len() as int));
        }
    }
    if h.new_count == 0 {
        assert(s[from] is Remove);
        assert(s[to - 1] is Remove);
        if from > 0 {
            assert(changed(s, from));
            assert(near(s, from - 1, s.len() as int));
        }
        if to < s.len() {
            assert(changed(s, to - 1));
            assert(near(s, to, s.len() as int));
        }
    }
}

/// The hunks of a diff start further down each side one after another.
proof fn lemma_starts_increase(
    h: Seq<DiffHunk>,
    s: Seq<Step>,
    runs: Seq<(int, int)>,
    old: Seq<Seq<char>>,
    new: Seq<Seq<char>>,
    backwards: bool,
    k: int,
    l: int,
)
    requires
        hunks_of(h, s, runs, old, new),
        0 <= k < l < h.len(),
    ensures
        spec_start_of(h[k], backwards) < spec_start_of(h[l], backwards),
{
    assert(hunk_is(h[k], s, old, new, runs[k].0, runs[k].1));
    assert(hunk_is(h[l], s, old, new, runs[l].0, runs[l].1));
    lemma_hunk_start(h[k], s, old, new, runs, k);
    lemma_hunk_start(h[l], s, old, new, runs, l);
    assert(runs[k].1 < runs[l].0);
    lemma_counts_monotone(s, runs[k].1, runs[l].0);
}

/// A strictly falling order of every index below its length is the indices from the last down.
proof fn lemma_falling_below(order: Seq<int>, i: int)
    requires
        forall|a: int, b: int| 0 <= a < b < order.len() ==> order[a] > order[b],
        forall|a: int| 0 <= a < order.len() ==> 0 <= #[trigger] order[a] < order.len(),
        0 <= i < order.len(),
    ensures
        order[i] >= order.len() - 1 - i,
    decreases order.len() - i,
{
    if i < order.len() - 1 {
        lemma_falling_below(order, i + 1);
    }
}

/// The same, from above.
proof fn lemma_falling_above(order: Seq<int>, i: int)
    requires
        forall|a: int, b: int| 0 <= a < b < order.len() ==> order[a] > order[b],
        forall|a: int| 0 <= a < order.len() ==> 0 <= #[trigger] order[a] < order.len(),
        0 <= i < order.len(),
    ensures
        order[i] <= order.len() - 1 - i,
    decreases i,
{
    if i > 0 {
        lemma_falling_above(order, i - 1);
    }
}

/// The hunks of a diff are applied from the last one up.
proof fn lemma_order_reversed(
    h: Seq<DiffHunk>,
    s: Seq<Step>,
    runs: Seq<(int, int)>,
    old: Seq<Seq<char>>,
    new: Seq<Seq<char>>,
    order: Seq<int>,
    backwards: bool,
)
    requires
        hunks_of(h, s, runs, old, new),
        is_order(h, order, backwards),
    ensures
        forall|i: int| 0 <= i < order.len() ==> #[trigger] order[i] == h.len() - 1 - i,
{
    assert forall|a: int, b: int| 0 <= a < b < order.len() implies order[a] > order[b] by {
        let x = order[a];
        let y = order[b];
        if x < y {
            lemma_starts_increase(h, s, runs, old, new, backwards, x, y);
        }
    }
    assert forall|i: int| 0 <= i < order.len() implies #[trigger] order[i] == h.len() - 1 - i by {
        lemma_falling_below(order, i);
        lemma_falling_above(order, i);
    }
}

/// Where `wanted` is found when it is where the hint says: at the hint.
proof fn lemma_locate_at_hint(lines: Seq<Seq<char>>, wanted: Seq<Seq<char>>, hint: int)
    requires
        fits_at(lines, wanted, hint),
    ensures
        spec_locate(lines, wanted, hint) == Some(hint),
{
    if wanted.len() > 0 {
        assert forall|q: int| #[trigger] fits_at(lines, wanted, q) && distance(q, hint) <= lines.len() implies distance(
            hint,
            hint,
        ) < distance(q, hint) || (distance(hint, hint) == distance(q, hint) && hint <= q) by {}
        assert(nearest_fit(lines, wanted, hint, hint));
        lemma_nearest_unique_choose(lines, wanted, hint, hint);
    }
}

/// The text part way through applying a diff's hunks from the last one up, with the hunks from
/// `j` on applied: the old text down to where hunk `j` starts, and the new text from there.
pub open spec fn applied_from(
    old: Seq<Seq<char>>,
    new: Seq<Seq<char>>,
    s: Seq<Step>,
    runs: Seq<(int, int)>,
    j: int,
) -> Seq<Seq<char>> {
    if j >= runs.len() {
        old
    } else {
        old.take(olds_before(s, runs[j].0)) + new.skip(news_before(s, runs[j].0))
    }
}

/// Applying the last `m` hunks of a diff to the old text leaves the old text above them and the
/// new text from them on.
proof fn lemma_applied_so_far(
    old: Seq<Seq<char>>,
    new: Seq<Seq<char>>,
    s: Seq<Step>,
    runs: Seq<(int, int)>,
    h: Seq<DiffHunk>,
    order: Seq<int>,
    m: int,
)
    requires
        is_script(s, old, new),
        hunks_of(h, s, runs, old, new),
        is_order(h, order, false),
        0 <= m <= order.len(),
    ensures
        apply_in_order(old, h, order.take(m), false) == Ok::<Seq<Seq<char>>, int>(
            applied_from(old, new, s, runs, h.len() - m),
        ),
    decreases m,
{
    let k = h.len() as int;
    if m == 0 {
        assert(order.take(0) =~= Seq::<int>::empty());
    } else {
        lemma_applied_so_far(old, new, s, runs, h, order, m - 1);
        lemma_order_reversed(h, s, runs, old, new, order, false);
        assert(order.take(m).drop_last() =~= order.take(m - 1));
        assert(order.take(m).last() == order[m - 1]);
        let i = k - m;
        assert(order[m - 1] == i);
        let j = i + 1;
        let hunk = h[i];
        let from = runs[i].0;
        let to = runs[i].1;
        assert(hunk_is(hunk, s, old, new, from, to));
        lemma_hunk_start(hunk, s, old, new, runs, i);
        lemma_kept_prefix(hunk, s, old, new, from, to, to - from);
        assert(hunk.lines@.take(to - from) =~= hunk.lines@);
        lemma_counts_monotone(s, from, to);
        lemma_counts_monotone(s, to, s.len() as int);
        lemma_counts_monotone(s, 0, from);
        let a = olds_before(s, from);
        let b = olds_before(s, to);
        let c = news_before(s, from);
        let d = news_before(s, to);
        let current = applied_from(old, new, s, runs, j);
        let expected_lines = old.subrange(a, b);
        assert(expected(hunk, false) == expected_lines);
        assert(replacement(hunk, false) == new.subrange(c, d));
        assert(spec_start_of(hunk, false) == a);
        if j < k {
            let e = olds_before(s, runs[j].0);
            let f = news_before(s, runs[j].0);
            assert(runs[i].1 < runs[j].0);
            lemma_counts_monotone(s, to, runs[j].0);
            lemma_counts_monotone(s, runs[j].0, s.len() as int);
            assert forall|p: int| to <= p < runs[j].0 implies (#[trigger] s[p]) is Keep by {
                assert forall|l: int| 0 <= l < runs.len() implies !(runs[l].0 <= p < #[trigger] runs[l].1) by {
                    if l < i {
                        assert(runs[l].1 < runs[i].0);
                    } else if l > j {
                        assert(runs[j].1 < runs[l].0);
                    }
                }
                lemma_outside_keeps(s, runs, p);
            }
            lemma_keep_stretch(s, old, new, to, runs[j].0);
            assert(current =~= old.take(e) + new.skip(f));
            assert(current.subrange(a, b) =~= expected_lines);
            lemma_locate_at_hint(current, expected_lines, a);
            assert(spliced(current, a, b - a, new.subrange(c, d)) =~= old.take(a) + new.skip(c)) by {
                assert(current.subrange(0, a) =~= old.take(a));
                assert(current.subrange(b, current.len() as int) =~= old.subrange(b, e) + new.skip(f));
                assert(new.subrange(c, d) + new.subrange(d, f) + new.skip(f) =~= new.skip(c));
            }
        } else {
            assert forall|p: int| to <= p < s.len() implies (#[trigger] s[p]) is Keep by {
                assert forall|l: int| 0 <= l < runs.len() implies !(runs[l].0 <= p < #[trigger] runs[l].1) by {
                    if l < i {
                        assert(runs[l].1 < runs[i].0);
                    }
                }
                lemma_outside_keeps(s, runs, p);
            }
            lemma_keep_stretch(s, old, new, to, s.len() as int);
            assert(current == old);
            assert(current.subrange(a, b) =~= expected_lines);
            lemma_locate_at_hint(current, expected_lines, a);
            assert(spliced(current, a, b - a, new.subrange(c, d)) =~= old.take(a) + new.skip(c)) by {
                assert(old.subrange(b, old.len() as int) =~= new.subrange(d, new.len() as int));
                assert(new.subrange(c, d) + new.subrange(d, new.len() as int) =~= new.skip(c));
            }
        }
    }
}

/// Staging every hunk of a diff is staging the file: applied to the old text, from the last
/// hunk up as `apply` applies them, the hunks of the diff between two texts give the new text.
pub proof fn law_every_hunk_applied_gives_the_new_text(
    old: Seq<Seq<char>>,
    new: Seq<Seq<char>>,
    hunks: Seq<DiffHunk>,
    order: Seq<int>,
)
    requires
        exists|script: Seq<Step>, runs: Seq<(int, int)>|
            is_script(script, old, new) && hunks_of(hunks, script, runs, old, new),
        is_order(hunks, order, false),
    ensures
        apply_in_order(old, hunks, order, false) == Ok::<Seq<Seq<char>>, int>(new),
{
    let (s, runs) = choose|script: Seq<Step>, runs: Seq<(int, int)>|
        is_script(script, old, new) && hunks_of(hunks, script, runs, old, new);
    let k = hunks.len() as int;
    lemma_applied_so_far(old, new, s, runs, hunks, order, k);
    assert(order.take(k) =~= order);
    if k == 0 {
        assert forall|p: int| 0 <= p < s.len() implies (#[trigger] s[p]) is Keep by {
            lemma_outside_keeps(s, runs, p);
        }
        lemma_keep_stretch(s, old, new, 0, s.len() as int);
        assert(old =~= old.subrange(0, old.len() as int));
        assert(new =~= new.subrange(0, new.len() as int));
    } else {
        let first = runs[0].0;
        assert forall|p: int| 0 <= p < first implies (#[trigger] s[p]) is Keep by {
            assert forall|l: int| 0 <= l < runs.len() implies !(runs[l].0 <= p < #[trigger] runs[l].1) by {
                if l > 0 {
                    assert(runs[0].1 < runs[l].0);
                }
            }
            lemma_outside_keeps(s, runs, p);
        }
        lemma_keep_stretch(s, old, new, 0, first);
        lemma_counts_monotone(s, first, s.len() as int);
        assert(old.take(first) =~= old.subrange(0, first));
        assert(new.take(first) =~= new.subrange(0, first));
        assert(applied_from(old, new, s, runs, 0) =~= new);
    }
}

/// The text part way through undoing a diff's hunks from the last one up, with the hunks from
/// `j` on undone: the new text down to where hunk `j` starts, and the old text from there.
pub open spec fn undone_from(
    old: Seq<Seq<char>>,
    new: Seq<Seq<char>>,
    s: Seq<Step>,
    runs: Seq<(int, int)>,
    j: int,
) -> Seq<Seq<char>> {
    if j >= runs.len() {
        new
    } else {
        new.take(news_before(s, runs[j].0)) + old.skip(olds_before(s, runs[j].0))
    }
}

/// Undoing the last `m` hunks of a diff on the new text leaves the new text above them and the
/// old text from them on.
proof fn lemma_undone_so_far(
    old: Seq<Seq<char>>,
    new: Seq<Seq<char>>,
    s: Seq<Step>,
    runs: Seq<(int, int)>,
    h: Seq<DiffHunk>,
    order: Seq<int>,
    m: int,
)
    requires
        is_script(s, old, new),
        hunks_of(h, s, runs, old, new),
        is_order(h, order, true),
        0 <= m <= order.len(),
    ensures
        apply_in_order(new, h, order.take(m), true) == Ok::<Seq<Seq<char>>, int>(
            undone_from(old, new, s, runs, h.len() - m),
        ),
    decreases m,
{
    let k = h.len() as int;
    if m == 0 {
        assert(order.take(0) =~= Seq::<int>::empty());
    } else {
        lemma_undone_so_far(old, new, s, runs, h, order, m - 1);
        lemma_order_reversed(h, s, runs, old, new, order, true);
        assert(order.take(m).drop_last() =~= order.take(m - 1));
        assert(order.take(m).last() == order[m - 1]);
        let i = k - m;
        assert(order[m - 1] == i);
        let j = i + 1;
        let hunk = h[i];
        let from = runs[i].0;
        let to = runs[i].1;
        assert(hunk_is(hunk, s, old, new, from, to));
        lemma_hunk_start(hunk, s, old, new, runs, i);
        lemma_kept_prefix(hunk, s, old, new, from, to, to - from);
        assert(hunk.lines@.take(to - from) =~= hunk.lines@);
        lemma_counts_monotone(s, from, to);
        lemma_counts_monotone(s, to, s.len() as int);
        lemma_counts_monotone(s, 0, from);
        let a = olds_before(s, from);
        let b = olds_before(s, to);
        let c = news_before(s, from);
        let d = news_before(s, to);
        let current = undone_from(old, new, s, runs, j);
        let expected_lines = new.subrange(c, d);
        assert(expected(hunk, true) == expected_lines);
        assert(replacement(hunk, true) == old.subrange(a, b));
        assert(spec_start_of(hunk, true) == c);
        if j < k {
            let e = olds_before(s, runs[j].0);
            let f = news_before(s, runs[j].0);
            assert(runs[i].1 < runs[j].0);
            lemma_counts_monotone(s, to, runs[j].0);
            lemma_counts_monotone(s, runs[j].0, s.len() as int);
            assert forall|p: int| to <= p < runs[j].0 implies (#[trigger] s[p]) is Keep by {
                assert forall|l: int| 0 <= l < runs.len() implies !(runs[l].0 <= p < #[trigger] runs[l].1) by {
                    if l < i {
                        assert(runs[l].1 < runs[i].0);
                    } else if l > j {
                        assert(runs[j].1 < runs[l].0);
                    }
                }
                lemma_outside_keeps(s, runs, p);
            }
            lemma_keep_stretch(s, old, new, to, runs[j].0);
            assert(current =~= new.take(f) + old.skip(e));
            assert(current.subrange(c, d) =~= expected_lines);
            lemma_locate_at_hint(current, expected_lines, c);
            assert(spliced(current, c, d - c, old.subrange(a, b)) =~= new.take(c) + old.skip(a)) by {
                assert(current.subrange(0, c) =~= new.take(c));
                assert(current.subrange(d, current.len() as int) =~= new.subrange(d, f) + old.skip(e));
                assert(old.subrange(a, b) + old.subrange(b, e) + old.skip(e) =~= old.skip(a));
            }
        } else {
            assert forall|p: int| to <= p < s.len() implies (#[trigger] s[p]) is Keep by {
                assert forall|l: int| 0 <= l < runs.len() implies !(runs[l].0 <= p < #[trigger] runs[l].1) by {
                    if l < i {
                        assert(runs[l].1 < runs[i].0);
                    }
                }
                lemma_outside_keeps(s, runs, p);
            }
            lemma_keep_stretch(s, old, new, to, s.len() as int);
            assert(current == new);
            assert(current.subrange(c, d) =~= expected_lines);
            lemma_locate_at_hint(current, expected_lines, c);
            assert(spliced(current, c, d - c, old.subrange(a, b)) =~= new.take(c) + old.skip(a)) by {
                assert(old.subrange(b, old.len() as int) =~= new.subrange(d, new.len() as int));
                assert(old.subrange(a, b) + old.subrange(b, old.len() as int) =~= old.skip(a));
            }
        }
    }
}

/// Unstaging every hunk of a diff is unstaging the file: undone on the new text, from the last
/// hunk up as `apply` undoes them, the hunks of the diff between two texts give the old text.
pub proof fn law_every_hunk_undone_gives_the_old_text(
    old: Seq<Seq<char>>,
    new: Seq<Seq<char>>,
    hunks: Seq<DiffHunk>,
    order: Seq<int>,
)
    requires
        exists|script: Seq<Step>, runs: Seq<(int, int)>|
            is_script(script, old, new) && hunks_of(hunks, script, runs, old, new),
        is_order(hunks, order, true),
    ensures
        apply_in_order(new, hunks, order, true) == Ok::<Seq<Seq<char>>, int>(old),
{
    let (s, runs) = choose|script: Seq<Step>, runs: Seq<(int, int)>|
        is_script(script, old, new) && hunks_of(hunks, script, runs, old, new);
    let k = hunks.len() as int;
    lemma_undone_so_far(old, new, s, runs, hunks, order, k);
    assert(order.take(k) =~= order);
    if k == 0 {
        assert forall|p: int| 0 <= p < s.len() implies (#[trigger] s[p]) is Keep by {
            lemma_outside_keeps(s, runs, p);
        }
        lemma_keep_stretch(s, old, new, 0, s.len() as int);
        assert(old =~= old.subrange(0, old.len() as int));
        assert(new =~= new.subrange(0, new.len() as int));
    } else {
        let first = runs[0].0;
        assert forall|p: int| 0 <= p < first implies (#[trigger] s[p]) is Keep by {
            assert forall|l: int| 0 <= l < runs.len() implies !(runs[l].0 <= p < #[trigger] runs[l].1) by {
                if l > 0 {
                    assert(runs[0].1 < runs[l].0);
                }
            }
            lemma_outside_keeps(s, runs, p);
        }
        lemma_keep_stretch(s, old, new, 0, first);
        lemma_counts_monotone(s, first, s.len() as int);
        assert(old.take(first) =~= old.subrange(0, first));
        assert(new.take(first) =~= new.subrange(0, first));
        assert(undone_from(old, new, s, runs, 0) =~= old);
    }
}

/// Staging every hunk of a file's diff is staging the file: `apply`, given the file as the index
/// holds it and every hunk of the diff from there to the working copy, answers the working
/// copy's lines, with a final newline when the index's text had one.
///
/// For texts that `apply` and the diff cut into the same lines: what `apply` cuts at newlines
/// the diff also cuts at newlines, but the diff also takes a carriage return off the end of each
/// line, so a text holding one is left out.
pub proof fn law_staging_every_hunk_is_staging_the_file(
    path: Seq<char>,
    old: Seq<u8>,
    new: Seq<u8>,
    diff: crate::diff::FileDiff,
    out: Result<Vec<u8>, Error>,
)
    requires
        crate::diff::diff_between(diff, path, Some(old), Some(new)),
        !diff.binary,
        text_lines(text_of(old)) == crate::diff::blob_lines(old),
        applied(old, diff.hunks@, false, out),
    ensures
        out matches Ok(bytes) && bytes@ == vstd::utf8::encode_utf8(
            finished(crate::diff::blob_lines(new), old.len() == 0 || old.last() == 10u8),
        ),
{
    let order = choose|order: Seq<int>| #![trigger is_order(diff.hunks@, order, false)]
        is_order(diff.hunks@, order, false) && match apply_in_order(
            text_lines(text_of(old)),
            diff.hunks@,
            order,
            false,
        ) {
            Ok(lines) => out matches Ok(bytes) && bytes@ == vstd::utf8::encode_utf8(
                finished(lines, old.len() == 0 || old.last() == 10u8),
            ),
            Err(start) => out matches Err(Error::Git(said)) && said@ == misplaced(start),
        };
    law_every_hunk_applied_gives_the_new_text(
        crate::diff::blob_lines(old),
        crate::diff::blob_lines(new),
        diff.hunks@,
        order,
    );
}

/// Unstaging every hunk is unstaging the file: `apply`, undoing every hunk of the diff on the
/// text the diff was taken to, answers the lines of the text it was taken from.
///
/// For texts that `apply` and the diff cut into the same lines, as above.
pub proof fn law_unstaging_every_hunk_is_unstaging_the_file(
    path: Seq<char>,
    old: Seq<u8>,
    new: Seq<u8>,
    diff: crate::diff::FileDiff,
    out: Result<Vec<u8>, Error>,
)
    requires
        crate::diff::diff_between(diff, path, Some(old), Some(new)),
        !diff.binary,
        text_lines(text_of(new)) == crate::diff::blob_lines(new),
        applied(new, diff.hunks@, true, out),
    ensures
        out matches Ok(bytes) && bytes@ == vstd::utf8::encode_utf8(
            finished(crate::diff::blob_lines(old), new.len() == 0 || new.last() == 10u8),
        ),
{
    let order = choose|order: Seq<int>| #![trigger is_order(diff.hunks@, order, true)]
        is_order(diff.hunks@, order, true) && match apply_in_order(
            text_lines(text_of(new)),
            diff.hunks@,
            order,
            true,
        ) {
            Ok(lines) => out matches Ok(bytes) && bytes@ == vstd::utf8::encode_utf8(
                finished(lines, new.len() == 0 || new.last() == 10u8),
            ),
            Err(start) => out matches Err(Error::Git(said)) && said@ == misplaced(start),
        };
    law_every_hunk_undone_gives_the_old_text(
        crate::diff::blob_lines(old),
        crate::diff::blob_lines(new),
        diff.hunks@,
        order,
    );
}

/// Joining the pieces a text is cut into at its newlines gives the text back.
proof fn lemma_join_split(text: Seq<char>)
    ensures
        joined(split_on(text, '\n')) == text,
    decreases text.len(),
{
    if text.len() > 0 {
        let front = text.drop_last();
        lemma_join_split(front);
        crate::text::lemma_split_nonempty(front, '\n');
        let init = split_on(front, '\n');
        let cut = split_on(text, '\n');
        if text.last() == '\n' {
            assert(cut.drop_last() =~= init);
            assert(text =~= front + seq!['\n'] + Seq::<char>::empty());
        } else {
            let n = init.len() - 1;
            if init.len() == 1 {
                assert(cut[0] == init[0].push(text.last()));
                assert(text =~= front.push(text.last()));
            } else {
                assert(cut.drop_last() =~= init.drop_last());
                assert(cut.last() == init.last().push(text.last()));
                assert(joined(cut) =~= joined(init.drop_last()) + seq!['\n'] + init.last().push(text.last()));
                assert(joined(init) == joined(init.drop_last()) + seq!['\n'] + init.last());
                assert(text =~= front.push(text.last()));
            }
        }
    }
}

/// The pieces of a text with no carriage return hold none either.
proof fn lemma_split_keeps_out(text: Seq<char>, c: char)
    requires
        !text.contains(c),
    ensures
        forall|i: int| 0 <= i < split_on(text, '\n').len() ==> !(#[trigger] split_on(text, '\n')[i]).contains(c),
    decreases text.len(),
{
    if text.len() > 0 {
        let front = text.drop_last();
        assert(!front.contains(c)) by {
            if front.contains(c) {
                let k = choose|k: int| 0 <= k < front.len() && front[k] == c;
                assert(text[k] == c);
            }
        }
        lemma_split_keeps_out(front, c);
        crate::text::lemma_split_nonempty(front, '\n');
        let init = split_on(front, '\n');
        let cut = split_on(text, '\n');
        assert forall|i: int| 0 <= i < cut.len() implies !(#[trigger] cut[i]).contains(c) by {
            if text.last() != '\n' && i == init.len() - 1 {
                assert(text.last() != c);
                if cut[i].contains(c) {
                    let k = choose|k: int| 0 <= k < cut[i].len() && cut[i][k] == c;
                    if k < init.last().len() {
                        assert(init.last()[k] == c);
                        assert(init[init.len() - 1].contains(c));
                    }
                }
            } else if i < init.len() {
                assert(cut[i] == init[i]);
            }
        }
    }
}

/// For a text with no carriage return, the lines a diff reads it as are the lines applying hunks
/// cuts it into.
proof fn lemma_lines_agree(text: Seq<char>)
    requires
        !text.contains('\r'),
    ensures
        crate::diff::lines_of_text(text) == text_lines(text) || text.len() == 0,
{
    let cut = split_on(text, '\n');
    lemma_split_keeps_out(text, '\r');
    let stripped = cut.map_values(|piece: Seq<char>| crate::diff::strip_cr(piece));
    assert forall|i: int| 0 <= i < cut.len() implies stripped[i] == cut[i] by {
        if cut[i].len() > 0 {
            assert(cut[i].last() != '\r') by {
                assert(cut[i][cut[i].len() - 1] == cut[i].last());
            }
        }
    }
    assert(stripped =~= cut);
    if text.len() > 0 && text.last() == '\n' {
        assert(stripped.drop_last() =~= cut.drop_last());
    }
}

/// The lines of a text, finished with the newline its end says, give the text back: every text
/// but one that is a newline alone.
proof fn lemma_finished_lines(text: Seq<char>)
    requires
        text != seq!['\n'],
    ensures
        finished(text_lines(text), text.len() == 0 || text.last() == '\n') == text,
{
    if text.len() > 0 {
        let front = text.drop_last();
        if text.last() == '\n' {
            lemma_join_split(front);
            crate::text::lemma_split_nonempty(front, '\n');
            assert(split_on(text, '\n').drop_last() =~= split_on(front, '\n'));
            assert(front.len() > 0) by {
                if front.len() == 0 {
                    assert(text =~= seq!['\n']);
                }
            }
            assert(text =~= front.push('\n'));
        } else {
            lemma_join_split(text);
        }
    }
}

/// Text in UTF-8 ends in a newline byte exactly when it ends in a newline.
proof fn lemma_newline_byte(text: Seq<char>)
    ensures
        (vstd::utf8::encode_utf8(text).len() > 0 && vstd::utf8::encode_utf8(text).last() == 10u8) <==> (text.len() > 0
            && text.last() == '\n'),
    decreases text.len(),
{
    if text.len() > 0 {
        let rest = text.drop_first();
        lemma_newline_byte(rest);
        let first = vstd::utf8::encode_scalar(text[0] as u32);
        let bytes = vstd::utf8::encode_utf8(text);
        assert(bytes == first + vstd::utf8::encode_utf8(rest));
        if rest.len() == 0 {
            assert(vstd::utf8::encode_utf8(rest) =~= Seq::<u8>::empty());
            assert(bytes =~= first);
            assert(text.last() == text[0]);
            let v = text[0] as u32;
            vstd::utf8::char_is_scalar(text[0]);
            if vstd::utf8::has_width_1_encoding(v) {
                assert(((v & 0x7F) as u8 == 10u8) == (v == 10u32)) by (bit_vector)
                    requires
                        v <= 0x7F,
                ;
                vstd::utf8::char_u32_cast(text[0], v);
                vstd::utf8::char_u32_cast('\n', 10u32);
                assert(('\n' as u32) == 10u32);
                assert((text[0] == '\n') == (v == 10u32));
            } else {
                let last = vstd::utf8::last_continuation_byte(v);
                assert((0x80 | (v & 0x3F) as u8) != 10u8) by (bit_vector);
                assert(first.last() == last);
                assert(('\n' as u32) == 10u32);
                assert(text[0] != '\n');
            }
        } else {
            assert(vstd::utf8::encode_utf8(rest).len() > 0) by {
                vstd::utf8::encode_utf8_first_scalar(rest);
            }
            assert(bytes.last() == vstd::utf8::encode_utf8(rest).last());
            assert(text.last() == rest.last());
            assert(bytes.len() > 0);
        }
    }
}

/// The text valid UTF-8 reads as ends in a newline exactly when its bytes do.
proof fn lemma_ends_alike(bytes: Seq<u8>)
    requires
        vstd::utf8::valid_utf8(bytes),
    ensures
        (bytes.len() == 0 || bytes.last() == 10u8) == (text_of(bytes).len() == 0 || text_of(bytes).last() == '\n'),
{
    let text = vstd::utf8::decode_utf8(bytes);
    vstd::utf8::decode_utf8_encode_utf8(bytes);
    lemma_newline_byte(text);
    if text.len() == 0 {
        assert(vstd::utf8::encode_utf8(text) =~= Seq::<u8>::empty());
    }
    if bytes.len() == 0 {
        vstd::utf8::encode_utf8_decode_utf8(text);
        assert(text.len() == 0) by {
            if text.len() > 0 {
                vstd::utf8::encode_utf8_first_scalar(text);
            }
        }
    }
}

/// For valid UTF-8 with no carriage return, the lines a diff reads are the lines applying hunks
/// cuts the text into.
proof fn lemma_blob_lines_agree(bytes: Seq<u8>)
    requires
        vstd::utf8::valid_utf8(bytes),
        !text_of(bytes).contains('\r'),
    ensures
        text_lines(text_of(bytes)) == crate::diff::blob_lines(bytes),
{
    lemma_lines_agree(text_of(bytes));
    vstd::utf8::decode_utf8_encode_utf8(bytes);
    if bytes.len() == 0 {
        if text_of(bytes).len() > 0 {
            vstd::utf8::encode_utf8_first_scalar(text_of(bytes));
        }
    } else if text_of(bytes).len() == 0 {
        assert(vstd::utf8::encode_utf8(text_of(bytes)) =~= Seq::<u8>::empty());
    }
}

/// Unstaging every hunk of the diff between two texts gives exactly the old bytes back.
///
/// For valid UTF-8 with no carriage return in either text, the same ending on both sides, and an
/// old text that is not a newline alone.
pub proof fn law_unstaging_every_hunk_gives_the_old_bytes(
    path: Seq<char>,
    old: Seq<u8>,
    new: Seq<u8>,
    diff: crate::diff::FileDiff,
    out: Result<Vec<u8>, Error>,
)
    requires
        crate::diff::diff_between(diff, path, Some(old), Some(new)),
        !diff.binary,
        vstd::utf8::valid_utf8(old),
        vstd::utf8::valid_utf8(new),
        !text_of(old).contains('\r'),
        !text_of(new).contains('\r'),
        (old.len() == 0 || old.last() == 10u8) == (new.len() == 0 || new.last() == 10u8),
        text_of(old) != seq!['\n'],
        applied(new, diff.hunks@, true, out),
    ensures
        out matches Ok(bytes) && bytes@ == old,
{
    lemma_blob_lines_agree(old);
    lemma_blob_lines_agree(new);
    law_unstaging_every_hunk_is_unstaging_the_file(path, old, new, diff, out);
    lemma_ends_alike(old);
    lemma_finished_lines(text_of(old));
    vstd::utf8::decode_utf8_encode_utf8(old);
}

/// Staging every hunk of the diff between two texts gives exactly the new bytes.
///
/// For valid UTF-8 with no carriage return in either text, the same ending on both sides (a
/// final newline or none), and a new text that is not a newline alone, which reads as no lines.
pub proof fn law_staging_every_hunk_gives_the_new_bytes(
    path: Seq<char>,
    old: Seq<u8>,
    new: Seq<u8>,
    diff: crate::diff::FileDiff,
    out: Result<Vec<u8>, Error>,
)
    requires
        crate::diff::diff_between(diff, path, Some(old), Some(new)),
        !diff.binary,
        vstd::utf8::valid_utf8(old),
        vstd::utf8::valid_utf8(new),
        !text_of(old).contains('\r'),
        !text_of(new).contains('\r'),
        (old.len() == 0 || old.last() == 10u8) == (new.len() == 0 || new.last() == 10u8),
        text_of(new) != seq!['\n'],
        applied(old, diff.hunks@, false, out),
    ensures
        out matches Ok(bytes) && bytes@ == new,
{
    lemma_blob_lines_agree(old);
    lemma_blob_lines_agree(new);
    law_staging_every_hunk_is_staging_the_file(path, old, new, diff, out);
    lemma_ends_alike(new);
    lemma_finished_lines(text_of(new));
    vstd::utf8::decode_utf8_encode_utf8(new);
}

} // verus!
