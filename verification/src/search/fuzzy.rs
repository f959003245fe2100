//! Ranking a list against what somebody has typed.
//!
//! Each candidate is matched by `nucleo`, with smart case and smart normalisation, as paths are
//! matched; what matched is ranked best first, ties going to the earlier candidate, so that a
//! list somebody has already read does not reshuffle itself between two keystrokes that score the
//! same.

use vstd::prelude::*;
use vstd::string::StrSliceExecFns;

use crate::text::{begins_with, same_text, strip_prefix};

verus! {

/// One candidate that matched, and how well.
#[derive(Clone, PartialEq, Eq, Debug)]
pub struct Ranked {
    /// Where it was in the list handed in.
    pub index: usize,
    /// How well it matched. Larger is better; only the order is meaningful.
    pub score: u32,
    /// Which characters of the candidate the pattern landed on, for drawing.
    pub matched: Vec<u32>,
}

/// What a poll of a running ranking found.
#[derive(Clone, Copy, PartialEq, Eq, Structural, Debug)]
pub struct Progress {
    /// Whether the matches are different from last time.
    pub changed: bool,
    /// Whether the matcher is still working.
    pub running: bool,
}

/// How `nucleo` scores `candidate` against `pattern`, and where the pattern lands in it, when it
/// matches at all.
pub uninterp spec fn nucleo_match(pattern: Seq<char>, candidate: Seq<char>) -> Option<(u32, Seq<u32>)>;

/// Matches `candidate` against `pattern`.
///
/// Parses the pattern with smart case and smart normalisation, and asks a matcher configured for
/// paths for the score and the places it landed. Trusted to answer `nucleo_match`: the same
/// pattern and candidate give the same answer.
#[verifier::external_body]
fn match_one(pattern: &str, candidate: &str) -> (out: Option<(u32, Vec<u32>)>)
    ensures
        match out {
            Some((score, landed)) => nucleo_match(pattern@, candidate@) == Some((score, landed@)),
            None => nucleo_match(pattern@, candidate@) is None,
        },
{
    let mut matcher = nucleo::Matcher::new(nucleo::Config::DEFAULT.match_paths());
    let parsed = nucleo::pattern::Pattern::parse(
        pattern,
        nucleo::pattern::CaseMatching::Smart,
        nucleo::pattern::Normalization::Smart,
    );
    let mut haystack = Vec::new();
    let mut landed = Vec::new();
    let score = parsed.indices(nucleo::Utf32Str::new(candidate, &mut haystack), &mut matcher, &mut landed);
    score.map(|score| (score, landed))
}

/// How the spec sees a ranked candidate: where it was, its score, and where the pattern landed.
pub open spec fn ranked_view(r: Ranked) -> (int, u32, Seq<u32>) {
    (r.index as int, r.score, r.matched@)
}

/// Every candidate that matches `pattern`, in the order handed in.
pub open spec fn all_matches(pattern: Seq<char>, candidates: Seq<Seq<char>>) -> Seq<(int, u32, Seq<u32>)>
    decreases candidates.len(),
{
    if candidates.len() == 0 {
        seq![]
    } else {
        let prior = all_matches(pattern, candidates.drop_last());
        match nucleo_match(pattern, candidates.last()) {
            Some((score, landed)) => prior.push((candidates.len() - 1, score, landed)),
            None => prior,
        }
    }
}

/// `a` ranks above `b`: a higher score, or the same score and earlier in the list.
pub open spec fn ranks_above(a: (int, u32, Seq<u32>), b: (int, u32, Seq<u32>)) -> bool {
    a.1 > b.1 || (a.1 == b.1 && a.0 < b.0)
}

/// Whether `s` is in rank order, best first.
pub open spec fn in_rank_order(s: Seq<(int, u32, Seq<u32>)>) -> bool {
    forall|i: int, j: int| 0 <= i < j < s.len() ==> ranks_above(#[trigger] s[i], #[trigger] s[j])
}

/// Whether `out` is the best `limit` of `matches`, best first.
pub open spec fn best_of(out: Seq<(int, u32, Seq<u32>)>, matches: Seq<(int, u32, Seq<u32>)>, limit: int) -> bool {
    exists|full: Seq<(int, u32, Seq<u32>)>|
        #![trigger full.to_multiset()]
        in_rank_order(full) && full.to_multiset() == matches.to_multiset() && out == full.take(
            if limit < full.len() { limit } else { full.len() as int },
        )
}

/// Where each candidate was, in order, with no score, for the first `count` of them.
pub open spec fn unranked(count: int) -> Seq<(int, u32, Seq<u32>)> {
    Seq::new(count as nat, |i: int| (i, 0u32, Seq::<u32>::empty()))
}

/// Ranks `candidates` against `pattern`, best first, keeping the best `limit`.
///
/// An empty pattern matches everything, in the order handed in, which is what a picker shows
/// before anybody has typed.
pub fn rank(candidates: &[String], pattern: &str, limit: usize) -> (out: Vec<Ranked>)
    ensures
        pattern@.len() == 0 ==> out@.map_values(|r: Ranked| ranked_view(r)) == unranked(
            if limit < candidates@.len() { limit as int } else { candidates@.len() as int },
        ),
        pattern@.len() > 0 ==> best_of(
            out@.map_values(|r: Ranked| ranked_view(r)),
            all_matches(pattern@, candidates@.map_values(|c: String| c@)),
            limit as int,
        ),
{
    if pattern.is_empty() {
        let count = if limit < candidates.len() { limit } else { candidates.len() };
        let mut out: Vec<Ranked> = Vec::new();
        let mut i: usize = 0;
        while i < count
            invariant
                i <= count,
                out@.len() == i,
                forall|k: int| 0 <= k < i ==> ranked_view(#[trigger] out@[k]) == (k, 0u32, Seq::<u32>::empty()),
            decreases count - i,
        {
            let none: Vec<u32> = Vec::new();
            assert(none@ =~= Seq::<u32>::empty());
            out.push(Ranked { index: i, score: 0, matched: none });
            i = i + 1;
        }
        assert(out@.map_values(|r: Ranked| ranked_view(r)) =~= unranked(count as int));
        return out;
    }
    let ghost cv = candidates@.map_values(|c: String| c@);
    let mut full: Vec<Ranked> = Vec::new();
    let mut i: usize = 0;
    assert(full@.map_values(|r: Ranked| ranked_view(r)).to_multiset() =~= all_matches(pattern@, cv.take(0)).to_multiset()) by {
        assert(cv.take(0) =~= Seq::<Seq<char>>::empty());
        assert(full@.map_values(|r: Ranked| ranked_view(r)) =~= Seq::<(int, u32, Seq<u32>)>::empty());
    }
    while i < candidates.len()
        invariant
            i <= candidates@.len(),
            cv == candidates@.map_values(|c: String| c@),
            in_rank_order(full@.map_values(|r: Ranked| ranked_view(r))),
            full@.map_values(|r: Ranked| ranked_view(r)).to_multiset() == all_matches(pattern@, cv.take(i as int)).to_multiset(),
            forall|k: int| 0 <= k < full@.len() ==> #[trigger] full@[k].index < i,
        decreases candidates.len() - i,
    {
        assert(cv.take(i + 1).drop_last() =~= cv.take(i as int));
        assert(cv.take(i + 1).last() == candidates@[i as int]@);
        match match_one(pattern, candidates[i].as_str()) {
            Some((score, landed)) => {
                let item = Ranked { index: i, score, matched: landed };
                let ghost before = full@.map_values(|r: Ranked| ranked_view(r));
                let ghost v = ranked_view(item);
                let mut p: usize = 0;
                while p < full.len() && full[p].score >= score
                    invariant
                        p <= full@.len(),
                        before == full@.map_values(|r: Ranked| ranked_view(r)),
                        v == (i as int, score, landed@),
                        forall|k: int| 0 <= k < full@.len() ==> #[trigger] full@[k].index < i,
                        forall|k: int| 0 <= k < p ==> ranks_above(#[trigger] before[k], v),
                    decreases full.len() - p,
                {
                    assert(before[p as int] == ranked_view(full@[p as int]));
                    p = p + 1;
                }
                proof {
                    if p < full@.len() {
                        assert(before[p as int] == ranked_view(full@[p as int]));
                        assert(ranks_above(v, before[p as int]));
                    }
                }
                full.insert(p, item);
                proof {
                    let now = full@.map_values(|r: Ranked| ranked_view(r));
                    assert(now =~= before.insert(p as int, v));
                    assert forall|a: int, b: int| 0 <= a < b < now.len() implies ranks_above(#[trigger] now[a], #[trigger] now[b]) by {
                        if b < p {
                            assert(now[a] == before[a] && now[b] == before[b]);
                        } else if b == p {
                            assert(now[a] == before[a]);
                        } else if a < p {
                            assert(now[a] == before[a] && now[b] == before[b - 1]);
                        } else if a == p {
                            assert(now[b] == before[b - 1]);
                            if b - 1 > p {
                                assert(ranks_above(before[p as int], before[b - 1]));
                            }
                        } else {
                            assert(now[a] == before[a - 1] && now[b] == before[b - 1]);
                        }
                    }
                    vstd::seq_lib::to_multiset_insert(before, p as int, v);
                    assert(all_matches(pattern@, cv.take(i + 1)) == all_matches(pattern@, cv.take(i as int)).push(v));
                    vstd::seq_lib::to_multiset_build(all_matches(pattern@, cv.take(i as int)), v);
                    assert forall|k: int| 0 <= k < full@.len() implies #[trigger] full@[k].index < i + 1 by {
                        if k < p {
                            assert(full@[k] == element_at(full@, k));
                        }
                    }
                }
            },
            None => {},
        }
        i = i + 1;
    }
    assert(cv.take(candidates@.len() as int) =~= cv);
    let ghost whole = full@.map_values(|r: Ranked| ranked_view(r));
    full.truncate(limit);
    assert(full@.map_values(|r: Ranked| ranked_view(r)) =~= whole.take(
        if (limit as int) < whole.len() { limit as int } else { whole.len() as int },
    ));
    full
}

/// The element at `k`, for naming it in a proof.
spec fn element_at(s: Seq<Ranked>, k: int) -> Ranked {
    s[k]
}

/// What asking a running ranking for `pattern` comes to, when it was last asked for
/// `previous`: nothing when it is the same non-empty pattern again, else a new pattern, which
/// narrows what is already matched when it only adds to the last one.
pub fn reparse_for(previous: &str, pattern: &str) -> (out: Option<bool>)
    ensures
        out == if previous@ == pattern@ && pattern@.len() > 0 {
            None::<bool>
        } else {
            Some(begins_with(pattern@, previous@))
        },
{
    if same_text(previous, pattern) && pattern.unicode_len() > 0 {
        return None;
    }
    Some(strip_prefix(pattern, previous).is_some())
}

} // verus!
