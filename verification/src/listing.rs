//! What a directory holds, in the order the tree shows it.
//!
//! Reading the directory and asking the ignore files about each entry are the caller's part.
//! What is decided from the answers is here: which entries the filter keeps, and their order,
//! which is directories first and then names ignoring case, the one order every file tree uses
//! and the only one that can be scanned.

use vstd::prelude::*;

use crate::text::{begins_with, chars_of, lemma_text_order, text_before, text_less};
use crate::tree::{Entry, Filter, Standing};

verus! {

/// What an entry called `name` is set apart by: a name beginning with a dot hides it, and the
/// ignore files' answer is `ignored`.
pub fn standing_of(name: &str, ignored: bool) -> (out: Standing)
    ensures
        out.hidden == begins_with(name@, seq!['.']),
        out.ignored == ignored,
{
    let cs = chars_of(name);
    let hidden = cs.len() > 0 && cs[0] == '.';
    proof {
        if cs@.len() > 0 {
            assert(name@.take(1) =~= seq![name@[0]]);
            if name@.take(1) == seq!['.'] {
                assert(name@.take(1)[0] == '.');
            }
        }
    }
    Standing { hidden, ignored }
}

/// `text` in lower case, as Unicode's case mapping says.
pub uninterp spec fn lower_case(text: Seq<char>) -> Seq<char>;

/// `text` in lower case.
///
/// Calls `str::to_lowercase`, whose answer depends on the text alone; trusted to answer
/// `lower_case`.
#[verifier::external_body]
fn lowercase(text: &str) -> (out: String)
    ensures
        out@ == lower_case(text@),
{
    text.to_lowercase()
}

/// What an entry is ordered by in a listing: whether it is a directory, its name in lower case,
/// and its name.
pub open spec fn listing_key(e: Entry) -> (bool, Seq<char>, Seq<char>) {
    (e.directory, lower_case(e.name@), e.name@)
}

/// Whether key `a` is listed before key `b`: a directory before anything that is not one, then
/// by name ignoring case, and names that differ only in case by the name itself.
pub open spec fn key_before(a: (bool, Seq<char>, Seq<char>), b: (bool, Seq<char>, Seq<char>)) -> bool {
    (a.0 && !b.0) || (a.0 == b.0 && (text_before(a.1, b.1) || (a.1 == b.1 && text_before(a.2, b.2))))
}

/// Whether `s` is in listing order, entries that order the same side by side.
pub open spec fn in_listing_order(s: Seq<Entry>) -> bool {
    forall|i: int, j: int|
        0 <= i < j < s.len() ==> !key_before(listing_key(#[trigger] s[j]), listing_key(#[trigger] s[i]))
}

/// The entries of `found` that `filter` shows, in the order they were found.
pub open spec fn kept(found: Seq<Entry>, filter: Filter) -> Seq<Entry>
    decreases found.len(),
{
    if found.len() == 0 {
        seq![]
    } else if filter.allows(found.last().standing) {
        kept(found.drop_last(), filter).push(found.last())
    } else {
        kept(found.drop_last(), filter)
    }
}

/// `key_before` is an order: never of a key and itself, passed along, and between any two
/// different keys one way or the other.
pub proof fn lemma_key_order(
    a: (bool, Seq<char>, Seq<char>),
    b: (bool, Seq<char>, Seq<char>),
    c: (bool, Seq<char>, Seq<char>),
)
    ensures
        !key_before(a, a),
        key_before(a, b) && key_before(b, c) ==> key_before(a, c),
        a != b ==> key_before(a, b) || key_before(b, a),
{
    lemma_text_order(a.1, b.1, c.1);
    lemma_text_order(a.2, b.2, c.2);
    lemma_text_order(b.1, a.1, a.1);
    lemma_text_order(b.2, a.2, a.2);
}

/// Whether `a`, whose name in lower case is `al`, is listed before `b`, whose is `bl`.
fn listed_before(a: &Entry, al: &String, b: &Entry, bl: &String) -> (out: bool)
    requires
        al@ == lower_case(a.name@),
        bl@ == lower_case(b.name@),
    ensures
        out == key_before(listing_key(*a), listing_key(*b)),
{
    if a.directory != b.directory {
        return a.directory;
    }
    if text_less(al.as_str(), bl.as_str()) {
        return true;
    }
    if text_less(bl.as_str(), al.as_str()) {
        proof {
            lemma_text_order(al@, bl@, al@);
        }
        return false;
    }
    proof {
        lemma_text_order(al@, bl@, al@);
    }
    text_less(a.name.as_str(), b.name.as_str())
}

/// What a directory holds as the tree shows it, given what reading it `found`: the entries
/// `filter` keeps, directories first and then by name ignoring case.
pub fn listing(found: &Vec<Entry>, filter: Filter) -> (out: Vec<Entry>)
    ensures
        in_listing_order(out@),
        out@.to_multiset() == kept(found@, filter).to_multiset(),
        forall|i: int, j: int|
            0 <= i < j < out@.len() && (#[trigger] out@[j]).directory ==> (#[trigger] out@[i]).directory,
        forall|i: int| 0 <= i < out@.len() ==> filter.allows((#[trigger] out@[i]).standing),
{
    let mut out: Vec<Entry> = Vec::new();
    let mut lows: Vec<String> = Vec::new();
    let mut k: usize = 0;
    assert(out@.to_multiset() =~= kept(found@.take(0), filter).to_multiset()) by {
        assert(kept(found@.take(0), filter) =~= Seq::<Entry>::empty());
    }
    while k < found.len()
        invariant
            k <= found@.len(),
            out@.len() == lows@.len(),
            forall|i: int| 0 <= i < lows@.len() ==> (#[trigger] lows@[i])@ == lower_case(out@[i].name@),
            in_listing_order(out@),
            out@.to_multiset() == kept(found@.take(k as int), filter).to_multiset(),
        decreases found.len() - k,
    {
        assert(found@.take(k + 1).drop_last() =~= found@.take(k as int));
        assert(found@.take(k + 1).last() == found@[k as int]);
        let e = found[k].copy();
        if filter.keeps(e.standing) {
            let low = lowercase(e.name.as_str());
            let ghost before = out@;
            let ghost lbefore = lows@;
            let mut p: usize = 0;
            while p < out.len() && !listed_before(&e, &low, &out[p], &lows[p])
                invariant
                    p <= out@.len(),
                    out@ == before,
                    lows@ == lbefore,
                    out@.len() == lows@.len(),
                    forall|i: int| 0 <= i < lows@.len() ==> (#[trigger] lows@[i])@ == lower_case(out@[i].name@),
                    low@ == lower_case(e.name@),
                    forall|i: int| 0 <= i < p ==> !key_before(listing_key(e), listing_key(#[trigger] before[i])),
                decreases out.len() - p,
            {
                assert(lows@[p as int]@ == lower_case(out@[p as int].name@));
                p = p + 1;
            }
            proof {
                if p < out@.len() {
                    assert(lows@[p as int]@ == lower_case(out@[p as int].name@));
                }
            }
            out.insert(p, e);
            lows.insert(p, low);
            proof {
                let now = out@;
                assert(now =~= before.insert(p as int, e));
                assert(lows@ =~= lbefore.insert(p as int, low));
                assert forall|i: int| 0 <= i < lows@.len() implies (#[trigger] lows@[i])@ == lower_case(
                    out@[i].name@,
                ) by {
                    if i > p {
                        assert(lows@[i] == lbefore[i - 1] && now[i] == before[i - 1]);
                    }
                }
                assert forall|i: int, j: int| 0 <= i < j < now.len() implies !key_before(
                    listing_key(#[trigger] now[j]),
                    listing_key(#[trigger] now[i]),
                ) by {
                    let x = listing_key(e);
                    if j < p {
                        assert(now[i] == before[i] && now[j] == before[j]);
                    } else if j == p {
                        assert(now[i] == before[i]);
                    } else if i < p {
                        assert(now[i] == before[i] && now[j] == before[j - 1]);
                    } else if i == p {
                        assert(now[j] == before[j - 1]);
                        lemma_key_order(listing_key(before[j - 1]), x, listing_key(before[p as int]));
                        lemma_key_order(listing_key(before[p as int]), x, x);
                    } else {
                        assert(now[i] == before[i - 1] && now[j] == before[j - 1]);
                    }
                }
                vstd::seq_lib::to_multiset_insert(before, p as int, e);
                vstd::seq_lib::to_multiset_build(kept(found@.take(k as int), filter), e);
            }
        }
        k = k + 1;
    }
    assert(found@.take(found@.len() as int) =~= found@);
    proof {
        assert forall|i: int| 0 <= i < out@.len() implies filter.allows((#[trigger] out@[i]).standing) by {
            out@.to_multiset_ensures();
            assert(out@.contains(out@[i]));
            lemma_kept_allowed(found@, filter, out@[i]);
        }
    }
    out
}

/// Everything `kept` keeps, the filter allows.
proof fn lemma_kept_allowed(found: Seq<Entry>, filter: Filter, e: Entry)
    requires
        kept(found, filter).to_multiset().count(e) > 0,
    ensures
        filter.allows(e.standing),
    decreases found.len(),
{
    if found.len() > 0 {
        if filter.allows(found.last().standing) {
            kept(found.drop_last(), filter).to_multiset_ensures();
            if e != found.last() {
                lemma_kept_allowed(found.drop_last(), filter, e);
            }
        } else {
            lemma_kept_allowed(found.drop_last(), filter, e);
        }
    } else {
        kept(found, filter).to_multiset_ensures();
        assert(kept(found, filter) =~= Seq::<Entry>::empty());
        assert(!kept(found, filter).contains(e));
    }
}

} // verus!
