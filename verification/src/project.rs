//! Where the work is: the directory the editor was opened on, and the one that encloses it.
//!
//! A project is two roots and the things derived from them. The root is the directory that was
//! opened: what the file tree shows and what the pickers search. The tooling root is whatever
//! encloses it: what a language server is told to index and where the repository is. Looking at
//! the file system is the caller's part; what is decided from what it saw is here.

use vstd::prelude::*;
use vstd::string::StrSliceExecFns;

use crate::names::{file_name, file_name_of, parent, parent_of};
use crate::repo::{after_root, drop_separators, under};
use crate::text::{begins_with, chars_of, is_space, owned, space, string_of, string_of_prefix, strip_prefix, views_of};

verus! {

/// The markers that say a directory is the top of something, in order.
pub open spec fn markers() -> Seq<Seq<char>> {
    seq![".git"@, ".jj"@, ".hg"@, "Cargo.toml"@, "package.json"@, "pyproject.toml"@, "go.mod"@]
}

/// The names whose presence in a directory makes it the top of a project.
pub fn root_markers() -> (out: Vec<&'static str>)
    ensures
        out@.map_values(|m: &'static str| m@) == markers(),
{
    let mut out: Vec<&'static str> = Vec::new();
    out.push(".git");
    out.push(".jj");
    out.push(".hg");
    out.push("Cargo.toml");
    out.push("package.json");
    out.push("pyproject.toml");
    out.push("go.mod");
    assert(out@.map_values(|m: &'static str| m@) =~= markers());
    out
}

/// `path` and each directory above it, nearest first: what taking the parent over and over gives.
pub open spec fn ancestors_of(path: Seq<char>) -> Seq<Seq<char>>
    decreases path.len(),
{
    match parent(path) {
        Some(up) => if up.len() < path.len() {
            seq![path] + ancestors_of(up)
        } else {
            seq![path]
        },
        None => seq![path],
    }
}

/// `path` and each directory above it, nearest first.
pub fn ancestors(path: &str) -> (out: Vec<String>)
    ensures
        views_of(out@) == ancestors_of(path@),
{
    let mut out: Vec<String> = Vec::new();
    let mut current = owned(path);
    assert(views_of(out@) + ancestors_of(current@) =~= ancestors_of(path@));
    loop
        invariant
            views_of(out@) + ancestors_of(current@) == ancestors_of(path@),
        decreases current@.len(),
    {
        let up = parent_of(current.as_str());
        let ghost prior = views_of(out@);
        out.push(current.clone());
        assert(views_of(out@) =~= prior.push(current@));
        match up {
            Some(up) => {
                if up.as_str().unicode_len() < current.as_str().unicode_len() {
                    assert(views_of(out@) + ancestors_of(up@) =~= ancestors_of(path@));
                    current = up;
                } else {
                    assert(views_of(out@) =~= ancestors_of(path@));
                    return out;
                }
            },
            None => {
                assert(views_of(out@) =~= ancestors_of(path@));
                return out;
            },
        }
    }
}

/// Whether a directory is the top of a project, given which of the markers are beside it.
///
/// What a walk looking for projects stops at.
pub fn is_root(present: &[bool]) -> (out: bool)
    ensures
        out == exists|k: int| 0 <= k < present@.len() && present@[k],
{
    let mut i: usize = 0;
    while i < present.len()
        invariant
            i <= present@.len(),
            forall|k: int| 0 <= k < i ==> !present@[k],
        decreases present.len() - i,
    {
        if present[i] {
            return true;
        }
        i = i + 1;
    }
    false
}

/// The highest of `directories` that is marked as the top of a project.
pub open spec fn highest_marked(directories: Seq<Seq<char>>, marked: Seq<bool>) -> Option<Seq<char>>
    decreases directories.len(),
{
    if directories.len() == 0 || marked.len() == 0 {
        None
    } else if marked[directories.len() - 1] {
        Some(directories.last())
    } else {
        highest_marked(directories.drop_last(), marked)
    }
}

/// The highest of `directories`, nearest first, that `marked` says is the top of a project.
///
/// The highest, so a crate inside a workspace answers with the workspace.
pub fn enclosing(directories: &[String], marked: &[bool]) -> (out: Option<String>)
    requires
        marked@.len() == directories@.len(),
    ensures
        match out {
            Some(d) => highest_marked(views_of(directories@), marked@) == Some(d@),
            None => highest_marked(views_of(directories@), marked@) is None,
        },
{
    let ghost dv = views_of(directories@);
    let mut i: usize = directories.len();
    assert(dv.take(dv.len() as int) =~= dv);
    while i > 0
        invariant
            i <= directories@.len(),
            marked@.len() == directories@.len(),
            dv == views_of(directories@),
            highest_marked(dv, marked@) == highest_marked(dv.take(i as int), marked@),
        decreases i,
    {
        assert(dv.take(i as int).drop_last() =~= dv.take(i - 1));
        if marked[i - 1] {
            return Some(directories[i - 1].clone());
        }
        i = i - 1;
    }
    None
}

/// The directory `path` sits in, or `path` itself when it is one.
pub open spec fn directory_of(path: Seq<char>, is_dir: bool) -> Seq<char> {
    if is_dir {
        path
    } else {
        match parent(path) {
            Some(up) => up,
            None => seq!['.'],
        }
    }
}

/// The directory `path` sits in, or `path` itself when `is_dir` says it is one.
pub fn directory_containing(path: &str, is_dir: bool) -> (out: String)
    ensures
        out@ == directory_of(path@, is_dir),
{
    proof {
        reveal_strlit(".");
    }
    if is_dir {
        return owned(path);
    }
    match parent_of(path) {
        Some(up) => up,
        None => owned("."),
    }
}

/// The directory the editor is working in.
#[derive(Clone, Debug)]
pub struct Project {
    root: String,
    tooling: String,
}

impl Project {
    /// The directory everything is relative to.
    pub closed spec fn root_path(self) -> Seq<char> {
        self.root@
    }

    /// The directory the servers and the repository are rooted at.
    pub closed spec fn tooling_path(self) -> Seq<char> {
        self.tooling@
    }

    /// The project `path` belongs to, given which of the directories from the one it sits in
    /// upwards are marked as the top of a project.
    ///
    /// Both roots are the highest marked one. With no marker anywhere, the directory itself is
    /// the project.
    pub fn discover(path: &str, is_dir: bool, marked: &[bool]) -> (out: Project)
        requires
            marked@.len() == ancestors_of(directory_of(path@, is_dir)).len(),
        ensures
            out.root_path() == match highest_marked(ancestors_of(directory_of(path@, is_dir)), marked@) {
                Some(top) => top,
                None => directory_of(path@, is_dir),
            },
            out.tooling_path() == out.root_path(),
    {
        let start = directory_containing(path, is_dir);
        let ups = ancestors(start.as_str());
        let root = match enclosing(ups.as_slice(), marked) {
            Some(top) => top,
            None => start,
        };
        Project { tooling: root.clone(), root }
    }

    /// The project for a session opened on `dir`, given which of the directories from it
    /// upwards are marked as the top of a project.
    ///
    /// The root is `dir` exactly, because that is the directory somebody asked for. The tooling
    /// root is whatever encloses it.
    pub fn session(dir: &str, is_dir: bool, marked: &[bool]) -> (out: Project)
        requires
            marked@.len() == ancestors_of(directory_of(dir@, is_dir)).len(),
        ensures
            out.root_path() == directory_of(dir@, is_dir),
            out.tooling_path() == match highest_marked(ancestors_of(directory_of(dir@, is_dir)), marked@) {
                Some(top) => top,
                None => directory_of(dir@, is_dir),
            },
    {
        let root = directory_containing(dir, is_dir);
        let ups = ancestors(root.as_str());
        let tooling = match enclosing(ups.as_slice(), marked) {
            Some(top) => top,
            None => root.clone(),
        };
        Project { root, tooling }
    }

    /// A project rooted exactly at `root`, with nothing worked out.
    pub fn at(root: &str) -> (out: Project)
        ensures
            out.root_path() == root@,
            out.tooling_path() == root@,
    {
        Project { root: owned(root), tooling: owned(root) }
    }

    /// The directory everything is relative to.
    pub fn root(&self) -> (out: &str)
        ensures
            out@ == self.root_path(),
    {
        self.root.as_str()
    }

    /// The directory the servers and the repository are rooted at.
    pub fn tooling_root(&self) -> (out: &str)
        ensures
            out@ == self.tooling_path(),
    {
        self.tooling.as_str()
    }

    /// What the root is called, for a title bar: its last part, or the whole of it when it has
    /// none.
    pub fn name(&self) -> (out: String)
        ensures
            out@ == match file_name(self.root_path()) {
                Some(n) => n,
                None => self.root_path(),
            },
    {
        match file_name_of(self.root.as_str()) {
            Some(n) => n,
            None => self.root.clone(),
        }
    }

    /// `path` written relative to the root, or in full when it is outside.
    pub fn relative(&self, path: &str) -> (out: String)
        ensures
            out@ == if under(path@, self.root_path()) { after_root(path@, self.root_path()) } else { path@ },
    {
        let p = chars_of(path);
        let r = chars_of(self.root.as_str());
        if r.len() > p.len() {
            return owned(path);
        }
        let mut i: usize = 0;
        while i < r.len()
            invariant
                i <= r@.len() <= p@.len(),
                p@ == path@,
                r@ == self.root_path(),
                forall|j: int| 0 <= j < i ==> p@[j] == r@[j],
            decreases r.len() - i,
        {
            if p[i] != r[i] {
                assert(p@.take(r@.len() as int)[i as int] != r@[i as int]);
                return owned(path);
            }
            i = i + 1;
        }
        assert(p@.take(r@.len() as int) =~= r@);
        let n = r.len();
        if !(p.len() == n || (n > 0 && r[n - 1] == '/') || p[n] == '/') {
            return owned(path);
        }
        let mut at = n;
        while at < p.len() && p[at] == '/'
            invariant
                n <= at <= p@.len(),
                p@ == path@,
                drop_separators(p@.skip(n as int)) == drop_separators(p@.skip(at as int)),
            decreases p.len() - at,
        {
            assert(p@.skip(at as int).drop_first() =~= p@.skip(at + 1));
            at = at + 1;
        }
        assert(drop_separators(p@.skip(at as int)) == p@.skip(at as int));
        let mut rest: Vec<char> = Vec::new();
        let mut k = at;
        while k < p.len()
            invariant
                at <= k <= p@.len(),
                rest@ == p@.subrange(at as int, k as int),
            decreases p.len() - k,
        {
            rest.push(p[k]);
            assert(rest@ =~= p@.subrange(at as int, k + 1));
            k = k + 1;
        }
        assert(rest@ =~= p@.skip(at as int));
        string_of(rest.as_slice())
    }
}

/// `text` without the white space it begins with.
pub open spec fn trim_start(text: Seq<char>) -> Seq<char>
    decreases text.len(),
{
    if text.len() > 0 && is_space(text[0]) {
        trim_start(text.skip(1))
    } else {
        text
    }
}

/// `text` without the white space it ends with.
pub open spec fn trim_end(text: Seq<char>) -> Seq<char>
    decreases text.len(),
{
    if text.len() > 0 && is_space(text.last()) {
        trim_end(text.drop_last())
    } else {
        text
    }
}

/// `text` without white space at either end, as `str::trim` gives it.
pub open spec fn trimmed(text: Seq<char>) -> Seq<char> {
    trim_end(trim_start(text))
}

/// How many bytes `c` takes in UTF-8.
pub open spec fn utf8_width(c: char) -> int {
    let n = c as u32;
    if n < 0x80 { 1 } else if n < 0x800 { 2 } else if n < 0x10000 { 3 } else { 4 }
}

/// How many bytes `text` takes in UTF-8.
pub open spec fn byte_len(text: Seq<char>) -> int
    decreases text.len(),
{
    if text.len() == 0 {
        0
    } else {
        byte_len(text.drop_last()) + utf8_width(text.last())
    }
}

/// `text` without white space at either end.
pub fn trim_text(text: &str) -> (out: Vec<char>)
    ensures
        out@ == trimmed(text@),
{
    let t = chars_of(text);
    let mut start: usize = 0;
    assert(t@.skip(0) =~= t@);
    while start < t.len() && space(t[start])
        invariant
            start <= t@.len(),
            t@ == text@,
            trim_start(text@) == trim_start(t@.skip(start as int)),
        decreases t.len() - start,
    {
        assert(t@.skip(start as int).skip(1) =~= t@.skip(start + 1));
        assert(t@.skip(start as int)[0] == t@[start as int]);
        start = start + 1;
    }
    let ghost s = t@.skip(start as int);
    assert(start < t@.len() ==> s[0] == t@[start as int]);
    assert(trim_start(s) == s);
    let mut end: usize = t.len();
    assert(t@.subrange(start as int, end as int) =~= s);
    while end > start && space(t[end - 1])
        invariant
            start <= end <= t@.len(),
            s == t@.skip(start as int),
            trim_end(s) == trim_end(t@.subrange(start as int, end as int)),
        decreases end - start,
    {
        assert(t@.subrange(start as int, end as int).drop_last() =~= t@.subrange(start as int, end - 1));
        end = end - 1;
    }
    let mut out: Vec<char> = Vec::new();
    let mut k = start;
    while k < end
        invariant
            start <= k <= end <= t@.len(),
            out@ == t@.subrange(start as int, k as int),
        decreases end - k,
    {
        out.push(t[k]);
        assert(out@ =~= t@.subrange(start as int, k + 1));
        k = k + 1;
    }
    out
}

/// Where a checked-out commit's short form ends: the characters that make up its first seven
/// bytes.
pub open spec fn short_end(text: Seq<char>, k: int) -> bool {
    0 <= k <= text.len() && byte_len(text.take(k)) == 7
}

/// Which branch a repository's `HEAD` file says is checked out.
///
/// A branch answers with its name. A detached head holds the commit itself, and answers with its
/// first seven characters. Anything shorter is nothing.
pub open spec fn branch_of_head(head: Seq<char>) -> Option<Seq<char>> {
    let t = trimmed(head);
    if begins_with(t, "ref: refs/heads/"@) {
        Some(t.skip(16))
    } else if byte_len(t) >= 7 {
        Some(t.take(choose|k: int| short_end(t, k)))
    } else {
        None
    }
}

/// `byte_len` grows with each character.
proof fn lemma_byte_len_grows(text: Seq<char>, k: int)
    requires
        0 <= k <= text.len(),
    ensures
        byte_len(text.take(k)) <= byte_len(text),
        k < text.len() ==> byte_len(text.take(k + 1)) == byte_len(text.take(k)) + utf8_width(text[k]),
    decreases text.len() - k,
{
    if k < text.len() {
        lemma_byte_len_grows(text, k + 1);
        assert(text.take(k + 1).drop_last() =~= text.take(k));
    } else {
        assert(text.take(k) =~= text);
    }
}

/// `byte_len` of a longer prefix is larger by at least a byte for each character more.
proof fn lemma_byte_len_mono(text: Seq<char>, a: int, b: int)
    requires
        0 <= a <= b <= text.len(),
    ensures
        byte_len(text.take(a)) + (b - a) <= byte_len(text.take(b)),
    decreases b - a,
{
    if a < b {
        lemma_byte_len_mono(text, a, b - 1);
        lemma_byte_len_grows(text, b - 1);
    }
}

/// Which branch a repository's `HEAD` file says is checked out, given what the file holds.
///
/// A head that holds a commit is cut after its first seven bytes, which must end a character.
pub fn branch_from_head(head: &str) -> (out: Option<String>)
    requires
        !begins_with(trimmed(head@), "ref: refs/heads/"@) && byte_len(trimmed(head@)) >= 7 ==> exists|k: int|
            short_end(trimmed(head@), k),
    ensures
        match out {
            Some(b) => branch_of_head(head@) == Some(b@),
            None => branch_of_head(head@) is None,
        },
{
    proof {
        reveal_strlit("ref: refs/heads/");
    }
    let t = trim_text(head);
    let text = string_of(t.as_slice());
    if let Some(rest) = strip_prefix(text.as_str(), "ref: refs/heads/") {
        return Some(rest);
    }
    let mut bytes: usize = 0;
    let mut k: usize = 0;
    while k < t.len() && bytes < 7
        invariant
            k <= t@.len(),
            bytes == byte_len(t@.take(k as int)),
            bytes <= 7 + 3,
            k > 0 ==> byte_len(t@.take(k - 1)) < 7,
        decreases t.len() - k,
    {
        proof {
            lemma_byte_len_grows(t@, k as int);
        }
        let n = t[k] as u32;
        let width: usize = if n < 0x80 { 1 } else if n < 0x800 { 2 } else if n < 0x10000 { 3 } else { 4 };
        bytes = bytes + width;
        k = k + 1;
    }
    proof {
        lemma_byte_len_grows(t@, k as int);
    }
    if bytes < 7 {
        assert(k == t@.len());
        assert(t@.take(k as int) =~= t@);
        return None;
    }
    proof {
        lemma_byte_len_mono(t@, k as int, t@.len() as int);
        assert(t@.take(t@.len() as int) =~= t@);
        let c = choose|c: int| short_end(t@, c);
        if c < k {
            lemma_byte_len_mono(t@, c, k - 1);
        }
        if c > k {
            lemma_byte_len_mono(t@, k + 1, c);
            lemma_byte_len_grows(t@, k as int);
        }
        assert(c == k);
    }
    Some(string_of_prefix(t.as_slice(), k))
}

} // verus!
