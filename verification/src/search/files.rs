//! What a walk over a project should look at, and what its answers stand for.

use vstd::prelude::*;

use crate::names::{push_path, pushed};
use crate::text::{begins_with, chars_of, in_text_order, sort_texts, views_of};
use crate::tree::{before, lemma_path_order, path_before};

verus! {

/// What a walk should and should not look at.
#[derive(Clone, Copy, PartialEq, Eq, Structural, Debug)]
pub struct Walk {
    /// Whether to include what git ignores.
    pub ignored: bool,
    /// Whether to include names beginning with a dot.
    pub hidden: bool,
    /// Whether to follow symbolic links.
    ///
    /// Off, because a link into a parent directory is a walk that does not end.
    pub follow_links: bool,
    /// How many to stop at, so that a walk started on `/` does not run for ever.
    pub limit: usize,
}

impl Default for Walk {
    fn default() -> (out: Self)
        ensures
            !out.ignored && !out.hidden && !out.follow_links && out.limit == 500_000,
    {
        Walk { ignored: false, hidden: false, follow_links: false, limit: 500_000 }
    }
}

/// What a walk found, in order, so that two runs over the same project give the same order
/// whatever order the threads finished in.
pub fn in_order(found: Vec<String>) -> (out: Vec<String>)
    ensures
        in_text_order(views_of(out@)),
        views_of(out@).to_multiset() == views_of(found@).to_multiset(),
{
    sort_texts(found)
}

/// The absolute path a walk's answer stands for.
pub fn absolute(root: &str, relative: &str) -> (out: String)
    ensures
        out@ == pushed(root@, relative@),
{
    push_path(root, relative)
}

/// One thing a bounded walk found in a directory: its path, its name, whether it is a directory
/// (the link itself, never what a link points at), and whether it is the top of a project.
pub type Found = (String, String, bool, bool);

/// How the spec sees what a bounded walk found.
pub open spec fn found_view(f: Found) -> (Seq<char>, Seq<char>, bool, bool) {
    (f.0@, f.1@, f.2, f.3)
}

/// Whether a bounded walk lists what it found: a directory, and one whose name does not begin
/// with a dot unless those are asked for.
pub open spec fn lists(f: (Seq<char>, Seq<char>, bool, bool), hidden: bool) -> bool {
    f.2 && (hidden || !begins_with(f.1, seq!['.']))
}

/// The paths a bounded walk lists of `found`, in order.
pub open spec fn listed(found: Seq<(Seq<char>, Seq<char>, bool, bool)>, hidden: bool) -> Seq<Seq<char>>
    decreases found.len(),
{
    if found.len() == 0 {
        seq![]
    } else if lists(found.last(), hidden) {
        listed(found.drop_last(), hidden).push(found.last().0)
    } else {
        listed(found.drop_last(), hidden)
    }
}

/// The paths a bounded walk goes into of `found`, in order: what it lists that is not a project.
/// A project is somewhere to work, listed and never entered.
pub open spec fn entered(found: Seq<(Seq<char>, Seq<char>, bool, bool)>, hidden: bool) -> Seq<Seq<char>>
    decreases found.len(),
{
    if found.len() == 0 {
        seq![]
    } else if lists(found.last(), hidden) && !found.last().3 {
        entered(found.drop_last(), hidden).push(found.last().0)
    } else {
        entered(found.drop_last(), hidden)
    }
}

/// One level of a bounded walk: of what reading the directories at this depth `found`, the
/// paths to list, and the paths to read at the next depth.
///
/// Reading the directories, and asking of each whether it is a project, are the caller's part;
/// the walk stops when there is nothing to go into or the depth is spent.
pub fn walk_level(found: &Vec<Found>, hidden: bool) -> (out: (Vec<String>, Vec<String>))
    ensures
        views_of(out.0@) == listed(found@.map_values(|f: Found| found_view(f)), hidden),
        views_of(out.1@) == entered(found@.map_values(|f: Found| found_view(f)), hidden),
{
    let ghost fv = found@.map_values(|f: Found| found_view(f));
    let mut list: Vec<String> = Vec::new();
    let mut enter: Vec<String> = Vec::new();
    let mut k: usize = 0;
    while k < found.len()
        invariant
            k <= found@.len(),
            fv == found@.map_values(|f: Found| found_view(f)),
            views_of(list@) == listed(fv.take(k as int), hidden),
            views_of(enter@) == entered(fv.take(k as int), hidden),
        decreases found.len() - k,
    {
        assert(fv.take(k + 1).drop_last() =~= fv.take(k as int));
        assert(fv.take(k + 1).last() == fv[k as int]);
        let f = &found[k];
        let name = chars_of(f.1.as_str());
        let dotted = name.len() > 0 && name[0] == '.';
        proof {
            if name@.len() > 0 {
                assert(f.1@.take(1) =~= seq![f.1@[0]]);
                if f.1@.take(1) == seq!['.'] {
                    assert(f.1@.take(1)[0] == '.');
                }
            }
            assert(dotted == begins_with(fv[k as int].1, seq!['.']));
        }
        if f.2 && (hidden || !dotted) {
            let ghost l = views_of(list@);
            list.push(f.0.clone());
            assert(views_of(list@) =~= l.push(f.0@));
            if !f.3 {
                let ghost e = views_of(enter@);
                enter.push(f.0.clone());
                assert(views_of(enter@) =~= e.push(f.0@));
            }
        }
        k = k + 1;
    }
    assert(fv.take(k as int) =~= fv);
    (list, enter)
}

/// Whether `s` is in path order, compared part by part, equal paths side by side.
pub open spec fn in_path_order_loosely(s: Seq<Seq<char>>) -> bool {
    forall|i: int, j: int| 0 <= i < j < s.len() ==> !path_before(#[trigger] s[j], #[trigger] s[i])
}

/// What a bounded walk found, in path order: compared part by part, as paths compare.
pub fn in_path_order(found: Vec<String>) -> (out: Vec<String>)
    ensures
        in_path_order_loosely(views_of(out@)),
        views_of(out@).to_multiset() == views_of(found@).to_multiset(),
{
    let mut out: Vec<String> = Vec::new();
    let mut rest = found;
    let ghost whole = rest@;
    let n = rest.len();
    let mut k: usize = 0;
    assert(rest@ =~= whole.skip(0));
    assert(views_of(whole.take(0)).to_multiset() =~= views_of(out@).to_multiset()) by {
        assert(views_of(whole.take(0)) =~= Seq::<Seq<char>>::empty());
        assert(views_of(out@) =~= Seq::<Seq<char>>::empty());
    }
    while k < n
        invariant
            k <= n,
            n == whole.len(),
            rest@ == whole.skip(k as int),
            in_path_order_loosely(views_of(out@)),
            views_of(out@).to_multiset() == views_of(whole.take(k as int)).to_multiset(),
        decreases n - k,
    {
        assert(rest@[0] == whole[k as int]);
        let x = rest.remove(0);
        assert(rest@ =~= whole.skip(k + 1));
        let ghost old_out = out@;
        let ghost bv = views_of(old_out);
        let mut p: usize = 0;
        while p < out.len() && !before(x.as_str(), out[p].as_str())
            invariant
                p <= out@.len(),
                out@ == old_out,
                bv == views_of(old_out),
                forall|i: int| 0 <= i < p ==> !path_before(x@, #[trigger] bv[i]),
            decreases out.len() - p,
        {
            assert(bv[p as int] == out@[p as int]@);
            p = p + 1;
        }
        proof {
            if p < out@.len() {
                assert(bv[p as int] == out@[p as int]@);
            }
        }
        out.insert(p, x);
        proof {
            let now = views_of(out@);
            assert(now =~= bv.insert(p as int, x@));
            assert forall|i: int, j: int| 0 <= i < j < now.len() implies !path_before(#[trigger] now[j], #[trigger] now[i]) by {
                if j < p {
                    assert(now[i] == bv[i] && now[j] == bv[j]);
                } else if j == p {
                    assert(now[i] == bv[i]);
                } else if i < p {
                    assert(now[i] == bv[i] && now[j] == bv[j - 1]);
                } else if i == p {
                    assert(now[j] == bv[j - 1]);
                    lemma_path_order(bv[j - 1], x@, bv[p as int]);
                    lemma_path_order(bv[p as int], x@, x@);
                } else {
                    assert(now[i] == bv[i - 1] && now[j] == bv[j - 1]);
                }
            }
            vstd::seq_lib::to_multiset_insert(bv, p as int, x@);
            assert(views_of(whole.take(k + 1)) =~= views_of(whole.take(k as int)).push(x@));
            vstd::seq_lib::to_multiset_build(views_of(whole.take(k as int)), x@);
        }
        k = k + 1;
    }
    assert(whole.take(n as int) =~= whole);
    out
}

} // verus!
