//! Branches, and which one is checked out.

use vstd::prelude::*;

use crate::text::{
    begins_with, chars_of, lemma_text_order, push_char, push_str, string_of, strip_prefix, strip_suffix, text_before,
    text_less, without_suffix,
};

verus! {

/// One branch.
#[derive(Clone, Debug)]
pub struct Branch {
    /// What it is called, without the `refs/heads/` in front.
    pub name: String,
    /// Where it points.
    pub id: String,
    /// Whether it is the one checked out.
    pub current: bool,
    /// Which remote branch it follows, when it follows one.
    pub upstream: Option<String>,
    /// Whether it is a remote branch rather than a local one.
    pub remote: bool,
}

/// Where `HEAD` is.
#[derive(Clone, Debug)]
pub enum Head {
    /// On a branch, by name.
    Branch(String),
    /// Not on one, at a commit.
    Detached(String),
    /// A repository with no commits in it, so `HEAD` points at a branch that does not exist yet.
    Unborn(String),
}

impl Head {
    /// What to put in the corner of the window: the branch's name, or for a detached head `@`
    /// and the first seven characters of the commit.
    pub fn label(&self) -> (out: String)
        ensures
            out@ == match self {
                Head::Branch(name) => name@,
                Head::Unborn(name) => name@,
                Head::Detached(id) => seq!['@'] + id@.take(if id@.len() < 7 { id@.len() as int } else { 7 }),
            },
    {
        match self {
            Head::Branch(name) => name.clone(),
            Head::Unborn(name) => name.clone(),
            Head::Detached(id) => {
                let cs = chars_of(id.as_str());
                let n: usize = if cs.len() < 7 { cs.len() } else { 7 };
                let mut out = String::new();
                push_char(&mut out, '@');
                let mut i: usize = 0;
                while i < n
                    invariant
                        i <= n <= cs@.len(),
                        out@ == seq!['@'] + cs@.take(i as int),
                    decreases n - i,
                {
                    push_char(&mut out, cs[i]);
                    assert(out@ =~= seq!['@'] + cs@.take(i + 1));
                    i = i + 1;
                }
                out
            },
        }
    }

    /// The branch's name, when there is one.
    pub fn name(&self) -> (out: Option<&str>)
        ensures
            match self {
                Head::Branch(name) => out matches Some(n) && n@ == name@,
                Head::Unborn(name) => out matches Some(n) && n@ == name@,
                Head::Detached(_) => out is None,
            },
    {
        match self {
            Head::Branch(name) => Some(name.as_str()),
            Head::Unborn(name) => Some(name.as_str()),
            Head::Detached(_) => None,
        }
    }
}

/// What a reference called `full` is as a branch: its short name and whether it is a remote
/// one. Only `refs/heads/` and `refs/remotes/` hold branches, and a remote's `HEAD` points at
/// another branch rather than being one.
pub open spec fn branch_name(full: Seq<char>) -> Option<(Seq<char>, bool)> {
    if without_suffix(full, "/HEAD"@) is Some {
        None
    } else if begins_with(full, "refs/remotes/"@) {
        Some((full.skip(13), true))
    } else if begins_with(full, "refs/heads/"@) {
        Some((full.skip(11), false))
    } else {
        None
    }
}

/// The branch a reference called `full` is, by its short name, and whether it is a remote one.
pub fn short_name(full: &str) -> (out: Option<(String, bool)>)
    ensures
        match out {
            Some((name, remote)) => branch_name(full@) == Some((name@, remote)),
            None => branch_name(full@) is None,
        },
{
    proof {
        reveal_strlit("/HEAD");
        reveal_strlit("refs/remotes/");
        reveal_strlit("refs/heads/");
    }
    if strip_suffix(full, "/HEAD").is_some() {
        return None;
    }
    if let Some(name) = strip_prefix(full, "refs/remotes/") {
        return Some((name, true));
    }
    match strip_prefix(full, "refs/heads/") {
        Some(name) => Some((name, false)),
        None => None,
    }
}

/// The remote branch a local one follows, from the remote and the merge target its
/// configuration names: `<remote>/<branch>`, the branch without its `refs/heads/`.
pub open spec fn upstream_of(remote: Seq<char>, merge: Seq<char>) -> Seq<char> {
    remote + seq!['/'] + if begins_with(merge, "refs/heads/"@) {
        merge.skip(11)
    } else {
        merge
    }
}

/// The remote branch a local one follows.
pub fn upstream_name(remote: &str, merge: &str) -> (out: String)
    ensures
        out@ == upstream_of(remote@, merge@),
{
    proof {
        reveal_strlit("refs/heads/");
    }
    let mut out = string_of(chars_of(remote).as_slice());
    push_char(&mut out, '/');
    match strip_prefix(merge, "refs/heads/") {
        Some(branch) => push_str(&mut out, branch.as_str()),
        None => push_str(&mut out, merge),
    }
    out
}

/// Whether `a` is listed before `b`: local branches before remote ones, then by name.
pub open spec fn branch_before(a: Branch, b: Branch) -> bool {
    (!a.remote && b.remote) || (a.remote == b.remote && text_before(a.name@, b.name@))
}

/// Whether `s` is in branch order, branches that order the same side by side.
pub open spec fn in_branch_order(s: Seq<Branch>) -> bool {
    forall|i: int, j: int| 0 <= i < j < s.len() ==> !branch_before(#[trigger] s[j], #[trigger] s[i])
}

/// `branch_before` is an order: never of a branch and itself, and passed along.
proof fn lemma_branch_order(a: Branch, b: Branch, c: Branch)
    ensures
        !branch_before(a, a),
        branch_before(a, b) && branch_before(b, c) ==> branch_before(a, c),
        !branch_before(a, b) && !branch_before(b, a) ==> a.remote == b.remote && a.name@ == b.name@,
{
    lemma_text_order(a.name@, b.name@, c.name@);
    lemma_text_order(b.name@, a.name@, a.name@);
}

/// The branches found, local ones first and each in name order.
pub fn order_branches(found: Vec<Branch>) -> (out: Vec<Branch>)
    ensures
        in_branch_order(out@),
        out@.to_multiset() == found@.to_multiset(),
        forall|i: int, j: int| 0 <= i < j < out@.len() && !(#[trigger] out@[j]).remote ==> !(#[trigger] out@[i]).remote,
{
    let mut out: Vec<Branch> = Vec::new();
    let mut rest = found;
    let ghost whole = rest@;
    let n = rest.len();
    let mut k: usize = 0;
    assert(rest@ =~= whole.skip(0));
    assert(out@.to_multiset() =~= whole.take(0).to_multiset()) by {
        assert(whole.take(0) =~= Seq::<Branch>::empty());
    }
    while k < n
        invariant
            k <= n,
            n == whole.len(),
            rest@ == whole.skip(k as int),
            in_branch_order(out@),
            out@.to_multiset() == whole.take(k as int).to_multiset(),
        decreases n - k,
    {
        assert(rest@[0] == whole[k as int]);
        let x = rest.remove(0);
        assert(rest@ =~= whole.skip(k + 1));
        let ghost before = out@;
        let mut p: usize = 0;
        while p < out.len() && !(!x.remote && out[p].remote) && !(x.remote == out[p].remote && text_less(
            x.name.as_str(),
            out[p].name.as_str(),
        ))
            invariant
                p <= out@.len(),
                out@ == before,
                forall|i: int| 0 <= i < p ==> !branch_before(x, #[trigger] before[i]),
            decreases out.len() - p,
        {
            p = p + 1;
        }
        out.insert(p, x);
        proof {
            let now = out@;
            assert(now =~= before.insert(p as int, x));
            assert forall|i: int, j: int| 0 <= i < j < now.len() implies !branch_before(#[trigger] now[j], #[trigger] now[i]) by {
                if j < p {
                    assert(now[i] == before[i] && now[j] == before[j]);
                } else if j == p {
                    assert(now[i] == before[i]);
                } else if i < p {
                    assert(now[i] == before[i] && now[j] == before[j - 1]);
                } else if i == p {
                    assert(now[j] == before[j - 1]);
                    lemma_branch_order(before[j - 1], x, before[p as int]);
                    lemma_branch_order(before[p as int], x, x);
                } else {
                    assert(now[i] == before[i - 1] && now[j] == before[j - 1]);
                }
            }
            vstd::seq_lib::to_multiset_insert(before, p as int, x);
            assert(whole.take(k + 1) =~= whole.take(k as int).push(x));
            vstd::seq_lib::to_multiset_build(whole.take(k as int), x);
        }
        k = k + 1;
    }
    assert(whole.take(n as int) =~= whole);
    out
}

} // verus!
