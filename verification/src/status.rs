//! What is changed, staged, and untracked, as a status panel shows it.
//!
//! Asking the repository is the caller's part; what each answer amounts to is here.

use vstd::prelude::*;

use crate::names::{push_path, pushed};
use crate::text::{lemma_text_order, text_before, text_less};

verus! {

/// What has happened to one path.
#[derive(Clone, Copy, PartialEq, Eq, Structural, Debug)]
pub enum State {
    /// It is as it was.
    Unchanged,
    /// It is not in the repository at all.
    Untracked,
    /// It is new here.
    Added,
    /// Its contents differ.
    Modified,
    /// It is gone.
    Deleted,
    /// It was moved.
    Renamed,
    /// A merge left it with two answers.
    Conflicted,
}

impl Default for State {
    fn default() -> (out: Self)
        ensures
            out == State::Unchanged,
    {
        State::Unchanged
    }
}

impl State {
    /// The one-letter mark git itself would print, which is what a person reads a status by.
    pub fn mark(self) -> (out: &'static str)
        ensures
            out@ == match self {
                State::Unchanged => " "@,
                State::Untracked => "?"@,
                State::Added => "A"@,
                State::Modified => "M"@,
                State::Deleted => "D"@,
                State::Renamed => "R"@,
                State::Conflicted => "U"@,
            },
    {
        match self {
            State::Unchanged => " ",
            State::Untracked => "?",
            State::Added => "A",
            State::Modified => "M",
            State::Deleted => "D",
            State::Renamed => "R",
            State::Conflicted => "U",
        }
    }

    /// Whether anything happened at all.
    pub fn is_change(self) -> (out: bool)
        ensures
            out == (self != State::Unchanged),
    {
        !matches!(self, State::Unchanged)
    }
}

/// One path, and what has happened to it on each side.
///
/// Two states rather than one, because a file can be staged and changed again since.
#[derive(Clone, Debug)]
pub struct Entry {
    /// Which file, as git names it.
    pub path: String,
    /// Where it is on this machine.
    pub full: String,
    /// What the index says about it, against the last commit.
    pub index: State,
    /// What the working tree says about it, against the index.
    pub worktree: State,
    /// Where it came from, when it was moved.
    pub from: Option<String>,
}

impl Entry {
    /// Whether any of it is staged.
    pub fn is_staged(&self) -> (out: bool)
        ensures
            out == (self.index != State::Unchanged),
    {
        self.index.is_change()
    }

    /// Whether any of it is not.
    pub fn is_unstaged(&self) -> (out: bool)
        ensures
            out == (self.worktree != State::Unchanged),
    {
        self.worktree.is_change()
    }

    /// Whether a merge left it needing an answer.
    pub fn is_conflicted(&self) -> (out: bool)
        ensures
            out == (self.index == State::Conflicted || self.worktree == State::Conflicted),
    {
        matches!(self.index, State::Conflicted) || matches!(self.worktree, State::Conflicted)
    }
}

/// What a working-tree item is, as the repository summarises it.
#[derive(Clone, Copy, PartialEq, Eq, Structural, Debug)]
pub enum Summary {
    /// It is gone.
    Removed,
    /// It is new.
    Added,
    /// Its contents changed.
    Modified,
    /// It changed from one kind of thing to another.
    TypeChange,
    /// It was moved.
    Renamed,
    /// It was copied.
    Copied,
    /// Git has been told about it but holds nothing for it.
    IntentToAdd,
    /// A merge left it with two answers.
    Conflict,
}

/// What one working-tree item amounts to.
///
/// A new file the walk found, which the index has never heard of, is untracked; an index entry
/// marked intent-to-add is added. A panel that called both added would offer to unstage
/// something that was never staged.
pub fn worktree_state(summary: Summary, found_by_walk: bool) -> (out: State)
    ensures
        out == match summary {
            Summary::Removed => State::Deleted,
            Summary::Added => if found_by_walk { State::Untracked } else { State::Added },
            Summary::Modified | Summary::TypeChange => State::Modified,
            Summary::Renamed | Summary::Copied => State::Renamed,
            Summary::IntentToAdd => State::Added,
            Summary::Conflict => State::Conflicted,
        },
{
    match summary {
        Summary::Removed => State::Deleted,
        Summary::Added => if found_by_walk {
            State::Untracked
        } else {
            State::Added
        },
        Summary::Modified | Summary::TypeChange => State::Modified,
        Summary::Renamed | Summary::Copied => State::Renamed,
        Summary::IntentToAdd => State::Added,
        Summary::Conflict => State::Conflicted,
    }
}

/// A row of the status before it is put in order: the path, what the index says, and what the
/// working tree says.
pub type RowView = (Seq<char>, State, State);

/// Where the first row for `path` is in `rows`, when there is one.
pub open spec fn first_at(rows: Seq<RowView>, path: Seq<char>) -> Option<int>
    decreases rows.len(),
{
    if rows.len() == 0 {
        None
    } else {
        match first_at(rows.drop_last(), path) {
            Some(k) => Some(k),
            None => if rows.last().0 == path {
                Some(rows.len() - 1)
            } else {
                None
            },
        }
    }
}

/// What `first_at` finds is the first row with that path, and it finds nothing only when no row
/// has it.
pub proof fn lemma_first_at(rows: Seq<RowView>, path: Seq<char>)
    ensures
        match first_at(rows, path) {
            Some(k) => 0 <= k < rows.len() && rows[k].0 == path && forall|m: int| 0 <= m < k ==> rows[m].0 != path,
            None => forall|m: int| 0 <= m < rows.len() ==> rows[m].0 != path,
        },
    decreases rows.len(),
{
    if rows.len() > 0 {
        lemma_first_at(rows.drop_last(), path);
        match first_at(rows.drop_last(), path) {
            Some(k) => {
                assert forall|m: int| 0 <= m < k implies rows[m].0 != path by {
                    assert(rows[m] == rows.drop_last()[m]);
                }
                assert(rows[k] == rows.drop_last()[k]);
            },
            None => {
                assert forall|m: int| 0 <= m < rows.len() - 1 implies rows[m].0 != path by {
                    assert(rows[m] == rows.drop_last()[m]);
                }
            },
        }
    }
}

/// The rows the two passes over a repository make, before they are put in order: every working
/// tree item with nothing staged, then each staged path marked on the first row there is for it,
/// or added as a row of its own with nothing changed in the working tree.
pub open spec fn merged(worktree: Seq<(Seq<char>, State)>, staged: Seq<(Seq<char>, State)>) -> Seq<RowView>
    decreases staged.len(),
{
    if staged.len() == 0 {
        worktree.map_values(|w: (Seq<char>, State)| (w.0, State::Unchanged, w.1))
    } else {
        let prior = merged(worktree, staged.drop_last());
        let (path, state) = staged.last();
        match first_at(prior, path) {
            Some(k) => prior.update(k, (path, state, prior[k].2)),
            None => prior.push((path, state, State::Unchanged)),
        }
    }
}

/// How the status sees an entry.
pub open spec fn row_of(e: Entry) -> RowView {
    (e.path@, e.index, e.worktree)
}

/// Whether `out` is `rows` put in path order with each path once: strictly in order, every
/// path of `rows` in it, and each entry the first row for its path, under `root`.
pub open spec fn in_status_order(out: Seq<Entry>, rows: Seq<RowView>, root: Seq<char>) -> bool {
    &&& forall|i: int, j: int| 0 <= i < j < out.len() ==> text_before((#[trigger] out[i]).path@, (#[trigger] out[j]).path@)
    &&& forall|m: int| 0 <= m < rows.len() ==> exists|i: int| 0 <= i < out.len() && (#[trigger] out[i]).path@ == (#[trigger] rows[m]).0
    &&& forall|i: int| 0 <= i < out.len() ==> (match first_at(rows, (#[trigger] out[i]).path@) {
        Some(k) => row_of(out[i]) == rows[k],
        None => false,
    })
    &&& forall|i: int| 0 <= i < out.len() ==> (#[trigger] out[i]).full@ == pushed(root, out[i].path@) && out[i].from is None
}

/// Whether two texts are the same.
fn same_path(a: &String, b: &String) -> (out: bool)
    ensures
        out == (a@ == b@),
{
    *a == *b
}

/// The rows of the two passes, in the order they are made.
fn merge_rows(worktree: &Vec<(String, State)>, staged: &Vec<(String, State)>) -> (out: Vec<(String, State, State)>)
    ensures
        out@.map_values(|r: (String, State, State)| (r.0@, r.1, r.2)) == merged(
            worktree@.map_values(|w: (String, State)| (w.0@, w.1)),
            staged@.map_values(|w: (String, State)| (w.0@, w.1)),
        ),
{
    let ghost wv = worktree@.map_values(|w: (String, State)| (w.0@, w.1));
    let ghost sv = staged@.map_values(|w: (String, State)| (w.0@, w.1));
    let mut rows: Vec<(String, State, State)> = Vec::new();
    let mut i: usize = 0;
    while i < worktree.len()
        invariant
            i <= worktree@.len(),
            wv == worktree@.map_values(|w: (String, State)| (w.0@, w.1)),
            rows@.map_values(|r: (String, State, State)| (r.0@, r.1, r.2)) == wv.take(i as int).map_values(
                |w: (Seq<char>, State)| (w.0, State::Unchanged, w.1),
            ),
        decreases worktree.len() - i,
    {
        let ghost before = rows@;
        let path = worktree[i].0.clone();
        assert(path@ == worktree@[i as int].0@);
        rows.push((path, State::Unchanged, worktree[i].1));
        assert(wv[i as int] == (worktree@[i as int].0@, worktree@[i as int].1));
        assert(rows@ == before.push((path, State::Unchanged, worktree@[i as int].1)));
        proof {
            let now = rows@.map_values(|r: (String, State, State)| (r.0@, r.1, r.2));
            let was = before.map_values(|r: (String, State, State)| (r.0@, r.1, r.2));
            let want = wv.take(i + 1).map_values(|w: (Seq<char>, State)| (w.0, State::Unchanged, w.1));
            let had = wv.take(i as int).map_values(|w: (Seq<char>, State)| (w.0, State::Unchanged, w.1));
            assert(wv.len() == worktree@.len());
            assert(was.len() == had.len());
            assert(now.len() == want.len());
            assert forall|j: int| 0 <= j < now.len() implies now[j] == want[j] by {
                if j < i {
                    assert(now[j] == was[j]);
                    assert(was[j] == had[j]);
                    assert(had[j] == want[j]);
                }
            }
            assert(now =~= want);
        }
        i = i + 1;
    }
    assert(wv.take(i as int) =~= wv);
    assert(sv.take(0) =~= Seq::<(Seq<char>, State)>::empty());
    let mut k: usize = 0;
    while k < staged.len()
        invariant
            k <= staged@.len(),
            wv == worktree@.map_values(|w: (String, State)| (w.0@, w.1)),
            sv == staged@.map_values(|w: (String, State)| (w.0@, w.1)),
            rows@.map_values(|r: (String, State, State)| (r.0@, r.1, r.2)) == merged(wv, sv.take(k as int)),
        decreases staged.len() - k,
    {
        let ghost prior = merged(wv, sv.take(k as int));
        assert(sv.take(k + 1).drop_last() =~= sv.take(k as int));
        assert(sv.take(k + 1).last() == sv[k as int]);
        let path = &staged[k].0;
        let state = staged[k].1;
        let mut j: usize = 0;
        while j < rows.len() && !same_path(&rows[j].0, path)
            invariant
                j <= rows@.len(),
                prior == rows@.map_values(|r: (String, State, State)| (r.0@, r.1, r.2)),
                forall|m: int| 0 <= m < j ==> prior[m].0 != path@,
            decreases rows.len() - j,
        {
            j = j + 1;
        }
        proof {
            lemma_first_at(prior, path@);
        }
        if j < rows.len() {
            let ghost before = rows@;
            let kept = rows[j].2;
            rows.set(j, (path.clone(), state, kept));
            proof {
                assert(first_at(prior, path@) == Some(j as int)) by {
                    match first_at(prior, path@) {
                        Some(f) => {
                            if f < j {
                            } else if f > j {
                            }
                        },
                        None => {},
                    }
                }
                assert(rows@.map_values(|r: (String, State, State)| (r.0@, r.1, r.2)) =~= prior.update(
                    j as int,
                    (path@, state, prior[j as int].2),
                ));
            }
        } else {
            rows.push((path.clone(), state, State::Unchanged));
            proof {
                assert(first_at(prior, path@) is None) by {
                    match first_at(prior, path@) {
                        Some(f) => {},
                        None => {},
                    }
                }
                assert(rows@.map_values(|r: (String, State, State)| (r.0@, r.1, r.2)) =~= prior.push(
                    (path@, state, State::Unchanged),
                ));
            }
        }
        k = k + 1;
    }
    assert(sv.take(k as int) =~= sv);
    rows
}

/// Every path the status shows, in path order and each once: the working tree's items, and the
/// staged paths marked on them or added beside them, each found under `root`.
///
/// `worktree` is what comparing the working tree with the index found, and `staged` what
/// comparing the index with the last commit found, each in the order it was found.
pub fn status_entries(root: &str, worktree: &Vec<(String, State)>, staged: &Vec<(String, State)>) -> (out: Vec<Entry>)
    ensures
        in_status_order(
            out@,
            merged(
                worktree@.map_values(|w: (String, State)| (w.0@, w.1)),
                staged@.map_values(|w: (String, State)| (w.0@, w.1)),
            ),
            root@,
        ),
{
    let rows = merge_rows(worktree, staged);
    let ghost rv = rows@.map_values(|r: (String, State, State)| (r.0@, r.1, r.2));
    let mut out: Vec<Entry> = Vec::new();
    let mut k: usize = 0;
    while k < rows.len()
        invariant
            k <= rows@.len(),
            rv == rows@.map_values(|r: (String, State, State)| (r.0@, r.1, r.2)),
            in_status_order(out@, rv.take(k as int), root@),
        decreases rows.len() - k,
    {
        let ghost rk = rv.take(k as int);
        let ghost rk1 = rv.take(k + 1);
        assert(rk1.drop_last() =~= rk);
        assert(rk1.last() == rv[k as int]);
        let path = &rows[k].0;
        let ghost before = out@;
        let mut p: usize = 0;
        while p < out.len() && text_less(out[p].path.as_str(), path.as_str())
            invariant
                p <= out@.len(),
                out@ == before,
                forall|i: int| 0 <= i < p ==> text_before((#[trigger] before[i]).path@, path@),
            decreases out.len() - p,
        {
            p = p + 1;
        }
        proof {
            lemma_first_at(rk, path@);
            lemma_first_at(rk1, path@);
        }
        if p < out.len() && same_path(&out[p].path, path) {
            proof {
                assert forall|m: int| 0 <= m < rk1.len() implies exists|i: int| 0 <= i < out@.len() && (#[trigger] out@[i]).path@ == (#[trigger] rk1[m]).0 by {
                    if m < k {
                        assert(rk1[m] == rk[m]);
                    } else {
                        assert(out@[p as int].path@ == rk1[m].0);
                    }
                }
                assert forall|i: int| 0 <= i < out@.len() implies (match first_at(rk1, (#[trigger] out@[i]).path@) {
                    Some(f) => row_of(out@[i]) == rk1[f],
                    None => false,
                }) by {
                    lemma_first_at(rk, out@[i].path@);
                    match first_at(rk, out@[i].path@) {
                        Some(f) => {
                            assert(rk1[f] == rk[f]);
                        },
                        None => {},
                    }
                }
            }
        } else {
            let entry = Entry {
                path: path.clone(),
                full: push_path(root, path.as_str()),
                index: rows[k].1,
                worktree: rows[k].2,
                from: None,
            };
            proof {
                // Nothing already in the list has this path.
                assert forall|i: int| 0 <= i < before.len() implies (#[trigger] before[i]).path@ != path@ by {
                    if i < p {
                        lemma_text_order(before[i].path@, path@, path@);
                    } else {
                        lemma_text_order(path@, before[p as int].path@, before[i].path@);
                        lemma_text_order(before[p as int].path@, path@, path@);
                        if i > p {
                            lemma_text_order(path@, before[p as int].path@, before[i].path@);
                        }
                    }
                }
                // So no earlier row has it either.
                assert forall|m: int| 0 <= m < rk.len() implies (#[trigger] rk[m]).0 != path@ by {
                    let i = choose|i: int| 0 <= i < before.len() && (#[trigger] before[i]).path@ == rk[m].0;
                }
            }
            out.insert(p, entry);
            proof {
                let now = out@;
                assert(now =~= before.insert(p as int, entry));
                assert(first_at(rk, path@) is None);
                assert(first_at(rk1, path@) == Some(k as int));
                assert forall|i: int, j: int| 0 <= i < j < now.len() implies text_before(
                    (#[trigger] now[i]).path@,
                    (#[trigger] now[j]).path@,
                ) by {
                    if j < p {
                        assert(now[i] == before[i] && now[j] == before[j]);
                    } else if j == p {
                        assert(now[i] == before[i]);
                    } else if i < p {
                        assert(now[i] == before[i] && now[j] == before[j - 1]);
                    } else if i == p {
                        assert(now[j] == before[j - 1]);
                        lemma_text_order(before[p as int].path@, path@, path@);
                        lemma_text_order(path@, before[p as int].path@, before[j - 1].path@);
                    } else {
                        assert(now[i] == before[i - 1] && now[j] == before[j - 1]);
                    }
                }
                assert forall|m: int| 0 <= m < rk1.len() implies exists|i: int| 0 <= i < now.len() && (#[trigger] now[i]).path@ == (#[trigger] rk1[m]).0 by {
                    if m < k {
                        assert(rk1[m] == rk[m]);
                        let i = choose|i: int| 0 <= i < before.len() && (#[trigger] before[i]).path@ == rk[m].0;
                        if i < p {
                            assert(now[i] == before[i]);
                        } else {
                            assert(now[i + 1] == before[i]);
                        }
                    } else {
                        assert(now[p as int].path@ == rk1[m].0);
                    }
                }
                assert forall|i: int| 0 <= i < now.len() implies (match first_at(rk1, (#[trigger] now[i]).path@) {
                    Some(f) => row_of(now[i]) == rk1[f],
                    None => false,
                }) by {
                    if i == p {
                    } else {
                        let b = if i < p { i } else { i - 1 };
                        assert(now[i] == before[b]);
                        lemma_first_at(rk, before[b].path@);
                        match first_at(rk, before[b].path@) {
                            Some(f) => {
                                assert(rk1[f] == rk[f]);
                            },
                            None => {},
                        }
                    }
                }
                assert forall|i: int| 0 <= i < now.len() implies (#[trigger] now[i]).full@ == pushed(root@, now[i].path@) && now[i].from is None by {
                    if i < p {
                        assert(now[i] == before[i]);
                    } else if i > p {
                        assert(now[i] == before[i - 1]);
                    }
                }
            }
        }
        k = k + 1;
    }
    assert(rv.take(k as int) =~= rv);
    out
}

} // verus!
