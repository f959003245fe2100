//! What a watch over a project reports, and which directories it should be watching.
//!
//! One watch per directory, and never one recursive watch over the root: the directories are
//! chosen by the same ignore files the tree reads, so what a build writes is never watched. The
//! watcher itself, and walking the project, are the caller's part.

use vstd::prelude::*;

use crate::text::views_of;

verus! {

/// What happened to a path.
#[derive(Clone, Copy, PartialEq, Eq, Structural, Debug)]
pub enum Kind {
    /// It was written to. The tree has the same shape as before.
    Written,
    /// It was made, removed or renamed, so the shape of the tree moved.
    Moved,
}

/// One thing that happened on disk.
#[derive(Clone, Debug)]
pub struct Change {
    /// What it happened to.
    pub path: String,
    /// What happened.
    pub kind: Kind,
}

/// What the watcher said happened, as far as telling changes apart needs.
#[derive(Clone, Copy, PartialEq, Eq, Structural, Debug)]
pub enum EventClass {
    /// Something was read.
    Access,
    /// Something was made.
    Create,
    /// Something was removed.
    Remove,
    /// Something was renamed.
    Rename,
    /// Something else about it changed.
    Modify,
    /// The watcher could not say what.
    Any,
    /// Something the watcher has no name for.
    Other,
}

/// What an event means for the tree: nothing for a read, a change of shape for anything made,
/// removed or renamed, and a write for everything else.
pub fn kind_of(event: EventClass) -> (out: Option<Kind>)
    ensures
        out == match event {
            EventClass::Access => None,
            EventClass::Create | EventClass::Remove | EventClass::Rename => Some(Kind::Moved),
            _ => Some(Kind::Written),
        },
{
    match event {
        EventClass::Access => None,
        EventClass::Create | EventClass::Remove | EventClass::Rename => Some(Kind::Moved),
        EventClass::Modify | EventClass::Any | EventClass::Other => Some(Kind::Written),
    }
}

/// The texts of `from` that are not in `against`, in order.
pub open spec fn missing_from(from: Seq<Seq<char>>, against: Seq<Seq<char>>) -> Seq<Seq<char>>
    decreases from.len(),
{
    if from.len() == 0 {
        seq![]
    } else if against.contains(from.last()) {
        missing_from(from.drop_last(), against)
    } else {
        missing_from(from.drop_last(), against).push(from.last())
    }
}

/// The strings of `from` that are not in `against`, in order.
fn missing(from: &[String], against: &[String]) -> (out: Vec<String>)
    ensures
        views_of(out@) == missing_from(views_of(from@), views_of(against@)),
{
    let ghost fv = views_of(from@);
    let ghost av = views_of(against@);
    let mut out: Vec<String> = Vec::new();
    let mut i: usize = 0;
    assert(views_of(out@) =~= missing_from(fv.take(0), av));
    while i < from.len()
        invariant
            i <= from@.len(),
            fv == views_of(from@),
            av == views_of(against@),
            views_of(out@) == missing_from(fv.take(i as int), av),
        decreases from.len() - i,
    {
        assert(fv.take(i + 1).drop_last() =~= fv.take(i as int));
        assert(fv.take(i + 1).last() == from@[i as int]@);
        let mut found = false;
        let mut j: usize = 0;
        while j < against.len()
            invariant
                j <= against@.len(),
                i < from@.len(),
                av == views_of(against@),
                found == exists|m: int| 0 <= m < j && av[m] == from@[i as int]@,
            decreases against.len() - j,
        {
            assert(av[j as int] == against@[j as int]@);
            if against[j] == from[i] {
                found = true;
            }
            j = j + 1;
        }
        proof {
            if found {
                let m = choose|m: int| 0 <= m < against@.len() && av[m] == from@[i as int]@;
                assert(av.contains(from@[i as int]@));
            } else {
                assert(!av.contains(from@[i as int]@)) by {
                    if av.contains(from@[i as int]@) {
                        let m = choose|m: int| 0 <= m < av.len() && av[m] == from@[i as int]@;
                    }
                }
            }
        }
        if !found {
            let ghost prior = views_of(out@);
            out.push(from[i].clone());
            assert(views_of(out@) =~= prior.push(from@[i as int]@));
        }
        i = i + 1;
    }
    assert(fv.take(from@.len() as int) =~= fv);
    out
}

/// What a sync has to change, given the directories that should be watched and those that are:
/// the ones to start watching, and the ones to stop.
pub fn to_change(wanted: &[String], watched: &[String]) -> (out: (Vec<String>, Vec<String>))
    ensures
        views_of(out.0@) == missing_from(views_of(wanted@), views_of(watched@)),
        views_of(out.1@) == missing_from(views_of(watched@), views_of(wanted@)),
{
    (missing(wanted, watched), missing(watched, wanted))
}

/// What `missing_from` keeps is what is in `from` and not in `against`.
pub proof fn lemma_missing_from(from: Seq<Seq<char>>, against: Seq<Seq<char>>, x: Seq<char>)
    ensures
        missing_from(from, against).contains(x) <==> from.contains(x) && !against.contains(x),
    decreases from.len(),
{
    if from.len() > 0 {
        lemma_missing_from(from.drop_last(), against, x);
        let prior = missing_from(from.drop_last(), against);
        if from.contains(x) && !(from.drop_last().contains(x)) {
            let k = choose|k: int| 0 <= k < from.len() && from[k] == x;
            if k < from.len() - 1 {
                assert(from.drop_last()[k] == x);
            }
            assert(from.last() == x);
        }
        if from.drop_last().contains(x) {
            let k = choose|k: int| 0 <= k < from.len() - 1 && from.drop_last()[k] == x;
            assert(from[k] == x);
        }
        if !against.contains(from.last()) {
            assert(prior.push(from.last()).last() == from.last());
            if prior.push(from.last()).contains(x) && x != from.last() {
                let k = choose|k: int| 0 <= k < prior.len() + 1 && prior.push(from.last())[k] == x;
                assert(prior[k] == x);
            }
            if prior.contains(x) {
                let k = choose|k: int| 0 <= k < prior.len() && prior[k] == x;
                assert(prior.push(from.last())[k] == x);
            }
        }
    }
}

/// After a sync, what is watched is what is wanted: what was watched, less what the sync stops,
/// with what it starts.
pub proof fn law_a_sync_watches_what_is_wanted(wanted: Seq<Seq<char>>, watched: Seq<Seq<char>>, x: Seq<char>)
    ensures
        (watched.contains(x) && !missing_from(watched, wanted).contains(x)) || missing_from(wanted, watched).contains(
            x,
        ) <==> wanted.contains(x),
{
    lemma_missing_from(watched, wanted, x);
    lemma_missing_from(wanted, watched, x);
}

} // verus!
