//! What a repository answers with when something goes wrong, and the names it gives paths.
//!
//! Opening the repository and reading its objects is the caller's business; what is here is what
//! does not need the repository at all.

use vstd::prelude::*;

use crate::names::pushed;
use crate::project::{trim_text, trimmed};
use crate::text::{chars_of, owned, str_lines, str_lines_of, string_of};

verus! {

/// What went wrong.
#[derive(Debug, Clone)]
pub enum Error {
    /// There is no repository here.
    NotARepository(String),
    /// A bare repository, which has no working tree to show a diff against.
    Bare(String),
    /// Git said no.
    Git(String),
}

impl Error {
    /// An error git reported, as the sentence it said.
    pub fn git(message: &str) -> (out: Error)
        ensures
            out matches Error::Git(said) && said@ == message@,
    {
        Error::Git(message.to_owned())
    }
}

/// Whether `root` is where `path` begins, a whole component at a time.
pub open spec fn under(path: Seq<char>, root: Seq<char>) -> bool {
    &&& root.len() <= path.len()
    &&& path.take(root.len() as int) == root
    &&& (path.len() == root.len() || (root.len() > 0 && root.last() == '/') || path[root.len() as int] == '/')
}

/// What is left of `path` once `root` and the separators after it are taken off.
pub open spec fn after_root(path: Seq<char>, root: Seq<char>) -> Seq<char> {
    drop_separators(path.skip(root.len() as int))
}

/// `text` without the separators it begins with.
pub open spec fn drop_separators(text: Seq<char>) -> Seq<char>
    decreases text.len(),
{
    if text.len() > 0 && text[0] == '/' {
        drop_separators(text.drop_first())
    } else {
        text
    }
}

/// `text` with every backslash turned into a forward slash.
pub open spec fn forward_slashes(text: Seq<char>) -> Seq<char> {
    text.map_values(|c: char| if c == '\\' { '/' } else { c })
}

/// What the repository calls `path`: relative to the working tree, with forward slashes.
///
/// `None` for a path outside the tree, and for the top of the tree itself, which is not a file in
/// it.
pub fn relative(root: &str, path: &str) -> (out: Option<String>)
    ensures
        match out {
            Some(name) => under(path@, root@) && name@ == forward_slashes(after_root(path@, root@))
                && name@.len() > 0,
            None => !under(path@, root@) || forward_slashes(after_root(path@, root@)).len() == 0,
        },
{
    let p = chars_of(path);
    let r = chars_of(root);
    if r.len() > p.len() {
        return None;
    }
    let mut i: usize = 0;
    while i < r.len()
        invariant
            i <= r@.len() <= p@.len(),
            p@ == path@,
            r@ == root@,
            forall|j: int| 0 <= j < i ==> p@[j] == r@[j],
        decreases r.len() - i,
    {
        if p[i] != r[i] {
            assert(p@.take(r@.len() as int)[i as int] != r@[i as int]);
            return None;
        }
        i = i + 1;
    }
    assert(p@.take(r@.len() as int) =~= r@);
    let n = r.len();
    let boundary = p.len() == n || (n > 0 && r[n - 1] == '/') || p[n] == '/';
    if !boundary {
        assert(!under(path@, root@)) by {
            assert(p@.len() != r@.len());
            assert(!(r@.len() > 0 && r@.last() == '/'));
            assert(p@[r@.len() as int] != '/');
        }
        return None;
    }
    let mut at = n;
    while at < p.len() && p[at] == '/'
        invariant
            n <= at <= p@.len(),
            p@ == path@,
            drop_separators(p@.skip(n as int)) == drop_separators(p@.skip(at as int)),
        decreases p.len() - at,
    {
        assert(p@.skip(at as int).drop_first() =~= p@.skip(at + 1));
        at = at + 1;
    }
    assert(at == p.len() || p@[at as int] != '/');
    assert(drop_separators(p@.skip(at as int)) == p@.skip(at as int));
    let mut out: Vec<char> = Vec::new();
    let mut k = at;
    while k < p.len()
        invariant
            at <= k <= p@.len(),
            p@ == path@,
            out@ == forward_slashes(p@.skip(at as int)).take(k - at),
        decreases p.len() - k,
    {
        let c = if p[k] == '\\' { '/' } else { p[k] };
        out.push(c);
        assert(out@ =~= forward_slashes(p@.skip(at as int)).take(k + 1 - at));
        k = k + 1;
    }
    assert(forward_slashes(p@.skip(at as int)).take(p@.len() - at) =~= forward_slashes(p@.skip(at as int)));
    if out.len() == 0 {
        return None;
    }
    Some(string_of(out.as_slice()))
}

/// A name the repository gave, put back under its root, is named the same again: `relative` is
/// the reverse of joining a relative name onto the root.
pub proof fn law_a_repository_name_reads_back(root: Seq<char>, name: Seq<char>)
    requires
        root.len() > 0,
        name.len() > 0,
        name[0] != '/',
        forall|k: int| 0 <= k < name.len() ==> name[k] != '\\',
    ensures
        under(pushed(root, name), root),
        forward_slashes(after_root(pushed(root, name), root)) == name,
{
    let path = pushed(root, name);
    assert(forward_slashes(name) =~= name);
    assert(drop_separators(name) == name);
    if root.last() == '/' {
        assert(path =~= root + name);
        assert(path.take(root.len() as int) =~= root);
        assert(path.skip(root.len() as int) =~= name);
    } else {
        assert(path =~= root + seq!['/'] + name);
        assert(path.take(root.len() as int) =~= root);
        assert(path.skip(root.len() as int) =~= seq!['/'] + name);
        assert((seq!['/'] + name).drop_first() =~= name);
        assert(drop_separators(seq!['/'] + name) == drop_separators(name));
        assert(path[root.len() as int] == '/');
    }
}

/// The first line of what git said on refusal that is not blank, without the white space around
/// it, or `git refused` when every line is blank.
pub open spec fn first_said(said: Seq<char>) -> Seq<char> {
    first_nonblank(str_lines(said))
}

/// The first of `lines` that is not blank once trimmed, trimmed; `git refused` when there is
/// none.
pub open spec fn first_nonblank(lines: Seq<Seq<char>>) -> Seq<char>
    decreases lines.len(),
{
    if lines.len() == 0 {
        "git refused"@
    } else if trimmed(lines[0]).len() > 0 {
        trimmed(lines[0])
    } else {
        first_nonblank(lines.skip(1))
    }
}

/// The error a refusal comes to, from what git wrote to its error stream.
pub fn refusal(said: &str) -> (out: Error)
    ensures
        out matches Error::Git(message) && message@ == first_said(said@),
{
    let lines = str_lines_of(said);
    let ghost lv = lines@.map_values(|l: Vec<char>| l@);
    let mut i: usize = 0;
    assert(lv.skip(0) =~= lv);
    while i < lines.len()
        invariant
            i <= lines@.len(),
            lv == lines@.map_values(|l: Vec<char>| l@),
            lv == str_lines(said@),
            first_nonblank(lv) == first_nonblank(lv.skip(i as int)),
        decreases lines.len() - i,
    {
        let line = string_of(lines[i].as_slice());
        let t = trim_text(line.as_str());
        assert(lv.skip(i as int)[0] == lv[i as int]);
        if t.len() > 0 {
            return Error::Git(string_of(t.as_slice()));
        }
        assert(lv.skip(i as int).skip(1) =~= lv.skip(i + 1));
        i = i + 1;
    }
    proof {
        reveal_strlit("git refused");
        assert(lv.skip(i as int) =~= Seq::<Seq<char>>::empty());
    }
    Error::Git(owned("git refused"))
}

} // verus!
