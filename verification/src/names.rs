//! Paths as text: the pieces a path is written in, its last name, its extension, its parent.
//!
//! Paths here are text with `/` between their parts. Empty parts and `.` parts name nothing, as
//! they name nothing to the file system.

use vstd::prelude::*;

use crate::text::{chars_of, split_on, string_of};

verus! {

/// Whether `piece` names something: it is not empty and not `.`.
pub open spec fn names_something(piece: Seq<char>) -> bool {
    piece.len() > 0 && piece != seq!['.']
}

/// The pieces of `pieces` that name something, in order.
pub open spec fn named(pieces: Seq<Seq<char>>) -> Seq<Seq<char>>
    decreases pieces.len(),
{
    if pieces.len() == 0 {
        seq![]
    } else if names_something(pieces.last()) {
        named(pieces.drop_last()).push(pieces.last())
    } else {
        named(pieces.drop_last())
    }
}

/// The parts of `path`, as its components are: the pieces between separators that name
/// something.
pub open spec fn parts(path: Seq<char>) -> Seq<Seq<char>> {
    named(split_on(path, '/'))
}

/// The last part of `path`, when it names a file or directory; nothing when there are no parts or
/// the last one is `..`.
pub open spec fn file_name(path: Seq<char>) -> Option<Seq<char>> {
    let ps = parts(path);
    if ps.len() == 0 || ps.last() == seq!['.', '.'] {
        None
    } else {
        Some(ps.last())
    }
}

/// Where the last `c` in `text` is, or -1.
pub open spec fn last_of(text: Seq<char>, c: char) -> int
    decreases text.len(),
{
    if text.len() == 0 {
        -1
    } else if text.last() == c {
        text.len() - 1
    } else {
        last_of(text.drop_last(), c)
    }
}

/// What a file name ends in after its last dot. Nothing when there is no dot, or the only dot is
/// the one it starts with.
pub open spec fn extension(name: Seq<char>) -> Option<Seq<char>> {
    let k = last_of(name, '.');
    if k <= 0 || name == seq!['.', '.'] {
        None
    } else {
        Some(name.skip(k + 1))
    }
}

/// A file name without its extension.
pub open spec fn stem(name: Seq<char>) -> Seq<char> {
    let k = last_of(name, '.');
    if k <= 0 || name == seq!['.', '.'] {
        name
    } else {
        name.take(k)
    }
}

/// The pieces of `text` between `separator`s.
pub fn pieces_of(text: &[char], separator: char) -> (out: Vec<Vec<char>>)
    ensures
        out@.map_values(|p: Vec<char>| p@) == split_on(text@, separator),
{
    let mut done: Vec<Vec<char>> = Vec::new();
    let mut current: Vec<char> = Vec::new();
    let mut i: usize = 0;
    assert(text@.take(0) =~= Seq::<char>::empty());
    while i < text.len()
        invariant
            i <= text@.len(),
            split_on(text@.take(i as int), separator).len() == done@.len() + 1,
            forall|j: int| #![trigger done@[j]] 0 <= j < done@.len() ==> done@[j]@ == split_on(text@.take(i as int), separator)[j],
            current@ == split_on(text@.take(i as int), separator).last(),
        decreases text.len() - i,
    {
        assert(text@.take(i + 1).drop_last() =~= text@.take(i as int));
        if text[i] == separator {
            done.push(current);
            current = Vec::new();
            assert(current@ =~= Seq::<char>::empty());
        } else {
            current.push(text[i]);
        }
        i = i + 1;
    }
    assert(text@.take(text@.len() as int) =~= text@);
    done.push(current);
    assert(done@.map_values(|p: Vec<char>| p@) =~= split_on(text@, separator));
    done
}

/// The parts of `path`.
pub fn parts_of(path: &str) -> (out: Vec<Vec<char>>)
    ensures
        out@.map_values(|p: Vec<char>| p@) == parts(path@),
{
    let cs = chars_of(path);
    let pieces = pieces_of(cs.as_slice(), '/');
    let ghost pv = pieces@.map_values(|p: Vec<char>| p@);
    let mut out: Vec<Vec<char>> = Vec::new();
    let mut i: usize = 0;
    assert(out@.map_values(|p: Vec<char>| p@) =~= named(pv.take(0)));
    while i < pieces.len()
        invariant
            i <= pieces@.len(),
            pv == pieces@.map_values(|p: Vec<char>| p@),
            out@.map_values(|p: Vec<char>| p@) == named(pv.take(i as int)),
        decreases pieces.len() - i,
    {
        assert(pv.take(i + 1).drop_last() =~= pv.take(i as int));
        assert(pv.take(i + 1).last() == pieces@[i as int]@);
        let piece = &pieces[i];
        let ghost before = out@.map_values(|p: Vec<char>| p@);
        let dot = piece.len() == 1 && piece[0] == '.';
        assert(dot == (piece@ == seq!['.'])) by {
            if piece@ == seq!['.'] {
                assert(piece@[0] == '.');
            }
            if dot {
                assert(piece@ =~= seq!['.']);
            }
        }
        if piece.len() > 0 && !dot {
            out.push(piece.clone());
            assert(out@.map_values(|p: Vec<char>| p@) =~= before.push(piece@));
        }
        i = i + 1;
    }
    assert(pv.take(pv.len() as int) =~= pv);
    out
}

/// Whether `a` is the two characters `..`.
fn is_up(a: &Vec<char>) -> (out: bool)
    ensures
        out == (a@ == seq!['.', '.']),
{
    let out = a.len() == 2 && a[0] == '.' && a[1] == '.';
    if out {
        assert(a@ =~= seq!['.', '.']);
    }
    out
}

/// The last part of `path`, when it names a file or directory.
pub fn file_name_of(path: &str) -> (out: Option<String>)
    ensures
        match out {
            Some(name) => file_name(path@) == Some(name@),
            None => file_name(path@) is None,
        },
{
    let ps = parts_of(path);
    if ps.len() == 0 {
        return None;
    }
    let last = &ps[ps.len() - 1];
    assert(ps@.map_values(|p: Vec<char>| p@).last() == last@);
    if is_up(last) {
        return None;
    }
    Some(string_of(last.as_slice()))
}

/// Where the last `c` in `text` is.
fn last_index(text: &Vec<char>, c: char) -> (out: Option<usize>)
    ensures
        match out {
            Some(k) => last_of(text@, c) == k && k < text@.len(),
            None => last_of(text@, c) == -1,
        },
{
    let mut i: usize = text.len();
    assert(text@.take(text@.len() as int) =~= text@);
    while i > 0
        invariant
            i <= text@.len(),
            last_of(text@, c) == last_of(text@.take(i as int), c),
        decreases i,
    {
        assert(text@.take(i as int).drop_last() =~= text@.take(i - 1));
        if text[i - 1] == c {
            return Some(i - 1);
        }
        i = i - 1;
    }
    assert(text@.take(0) =~= Seq::<char>::empty());
    None
}

/// What `name` ends in after its last dot, when anything.
pub fn extension_of(name: &str) -> (out: Option<String>)
    ensures
        match out {
            Some(e) => extension(name@) == Some(e@),
            None => extension(name@) is None,
        },
{
    let cs = chars_of(name);
    if is_up(&cs) {
        return None;
    }
    match last_index(&cs, '.') {
        Some(k) => {
            if k == 0 {
                return None;
            }
            let len = cs.len();
            assert(k < len);
            let mut out: Vec<char> = Vec::new();
            let mut i: usize = k + 1;
            while i < cs.len()
                invariant
                    k + 1 <= i <= cs@.len(),
                    out@ == cs@.subrange(k + 1, i as int),
                decreases cs.len() - i,
            {
                out.push(cs[i]);
                assert(out@ =~= cs@.subrange(k + 1, i + 1));
                i = i + 1;
            }
            assert(out@ =~= cs@.skip(k + 1));
            Some(string_of(out.as_slice()))
        },
        None => None,
    }
}

/// `name` without its extension.
pub fn stem_of(name: &str) -> (out: String)
    ensures
        out@ == stem(name@),
{
    let cs = chars_of(name);
    if is_up(&cs) {
        return string_of(cs.as_slice());
    }
    match last_index(&cs, '.') {
        Some(k) => {
            if k == 0 {
                return string_of(cs.as_slice());
            }
            let out = crate::text::string_of_prefix(cs.as_slice(), k);
            out
        },
        None => string_of(cs.as_slice()),
    }
}

/// `path` with `name` added as one more part: after a separator, unless `path` is empty or
/// already ends in one.
pub open spec fn joined_path(path: Seq<char>, name: Seq<char>) -> Seq<char> {
    if path.len() == 0 {
        name
    } else if path.last() == '/' {
        path + name
    } else {
        path + seq!['/'] + name
    }
}

/// `path` with `name` added as one more part.
pub fn join(path: &str, name: &str) -> (out: String)
    ensures
        out@ == joined_path(path@, name@),
{
    let mut out = String::new();
    crate::text::push_str(&mut out, path);
    let cs = chars_of(path);
    if cs.len() > 0 && cs[cs.len() - 1] != '/' {
        crate::text::push_char(&mut out, '/');
    }
    crate::text::push_str(&mut out, name);
    assert(out@ =~= joined_path(path@, name@));
    out
}

/// `text` without the separators it ends with.
pub open spec fn trim_separators(text: Seq<char>) -> Seq<char>
    decreases text.len(),
{
    if text.len() > 0 && text.last() == '/' {
        trim_separators(text.drop_last())
    } else {
        text
    }
}

/// The directory `path` is in: everything before its last separator, without the separators
/// that end it; `/` for something directly under the root; empty for a bare name; nothing for
/// no path, or the root.
pub open spec fn parent(path: Seq<char>) -> Option<Seq<char>> {
    let q = trim_separators(path);
    if q.len() == 0 {
        None
    } else {
        let k = last_of(q, '/');
        if k < 0 {
            Some(seq![])
        } else if trim_separators(q.take(k)).len() == 0 {
            Some(seq!['/'])
        } else {
            Some(trim_separators(q.take(k)))
        }
    }
}

/// `text` without the separators it ends with.
fn trimmed_of(text: &Vec<char>, n: usize) -> (out: usize)
    requires
        n <= text@.len(),
    ensures
        out <= n,
        text@.take(out as int) == trim_separators(text@.take(n as int)),
{
    let mut i = n;
    while i > 0 && text[i - 1] == '/'
        invariant
            i <= n <= text@.len(),
            trim_separators(text@.take(i as int)) == trim_separators(text@.take(n as int)),
        decreases i,
    {
        assert(text@.take(i as int).drop_last() =~= text@.take(i - 1));
        i = i - 1;
    }
    i
}

/// The directory `path` is in.
pub fn parent_of(path: &str) -> (out: Option<String>)
    ensures
        match out {
            Some(p) => parent(path@) == Some(p@),
            None => parent(path@) is None,
        },
{
    let cs = chars_of(path);
    let n = trimmed_of(&cs, cs.len());
    assert(cs@.take(cs@.len() as int) =~= cs@);
    if n == 0 {
        return None;
    }
    let ghost q = cs@.take(n as int);
    let mut k = n;
    assert(q.take(n as int) =~= q);
    while k > 0 && cs[k - 1] != '/'
        invariant
            k <= n <= cs@.len(),
            q == cs@.take(n as int),
            last_of(q, '/') == last_of(q.take(k as int), '/'),
        decreases k,
    {
        assert(q.take(k as int).drop_last() =~= q.take(k - 1));
        k = k - 1;
    }
    if k == 0 {
        assert(q.take(0) =~= Seq::<char>::empty());
        return Some(String::new());
    }
    assert(q.take(k as int).last() == '/');
    assert(last_of(q, '/') == k - 1);
    let m = trimmed_of(&cs, k - 1);
    assert(q.take(k - 1) =~= cs@.take(k - 1));
    if m == 0 {
        let mut out = String::new();
        crate::text::push_char(&mut out, '/');
        assert(out@ =~= seq!['/']);
        return Some(out);
    }
    Some(crate::text::string_of_prefix(cs.as_slice(), m))
}

/// `path` with `more` pushed onto it: `more` itself when it starts at the root, else one more
/// part.
pub open spec fn pushed(path: Seq<char>, more: Seq<char>) -> Seq<char> {
    if more.len() > 0 && more[0] == '/' {
        more
    } else {
        joined_path(path, more)
    }
}

/// `path` with `more` pushed onto it.
pub fn push_path(path: &str, more: &str) -> (out: String)
    ensures
        out@ == pushed(path@, more@),
{
    let m = chars_of(more);
    if m.len() > 0 && m[0] == '/' {
        return string_of(m.as_slice());
    }
    join(path, more)
}

/// `parts` written with a separator between each two.
pub open spec fn joined_parts(ps: Seq<Seq<char>>) -> Seq<char>
    decreases ps.len(),
{
    if ps.len() == 0 {
        seq![]
    } else if ps.len() == 1 {
        ps[0]
    } else {
        joined_parts(ps.drop_last()) + seq!['/'] + ps.last()
    }
}

/// Whether `path` begins with a `.` of its own, as `./a` and `.` do: the one place a `.` is a
/// component.
pub open spec fn leads_with_here(path: Seq<char>) -> bool {
    path.len() > 0 && path[0] == '.' && (path.len() == 1 || path[1] == '/')
}

/// `path` written the one way each path is: its root, a leading `.` when it has one, and its
/// parts, one separator between each two. Two paths are the same path, component for component,
/// exactly when they are written the same this way.
pub open spec fn normal(path: Seq<char>) -> Seq<char> {
    let ps = parts(path);
    if path.len() > 0 && path[0] == '/' {
        seq!['/'] + joined_parts(ps)
    } else if leads_with_here(path) {
        joined_parts(seq![seq!['.']] + ps)
    } else {
        joined_parts(ps)
    }
}

/// `path` written the one way each path is.
pub fn normalize(path: &str) -> (out: String)
    ensures
        out@ == normal(path@),
{
    let cs = chars_of(path);
    let ps = parts_of(path);
    let ghost pv = ps@.map_values(|p: Vec<char>| p@);
    let mut out: Vec<char> = Vec::new();
    let abs = cs.len() > 0 && cs[0] == '/';
    let here = cs.len() > 0 && cs[0] == '.' && (cs.len() == 1 || cs[1] == '/');
    let ghost lead: Seq<Seq<char>> = if !abs && here { seq![seq!['.']] } else { seq![] };
    if abs {
        out.push('/');
    } else if here {
        out.push('.');
    }
    let ghost start = out@;
    assert(lead + pv.take(0) =~= lead);
    proof {
        if abs {
            assert(start + joined_parts(pv.take(0)) =~= out@);
        } else if here {
            assert(lead.len() == 1);
            assert(joined_parts(lead) == lead[0]);
            assert(joined_parts(lead + pv.take(0)) =~= out@);
        } else {
            assert(joined_parts(lead + pv.take(0)) =~= out@);
        }
    }
    let mut i: usize = 0;
    while i < ps.len()
        invariant
            i <= ps@.len(),
            pv == ps@.map_values(|p: Vec<char>| p@),
            abs ==> start == seq!['/'] && lead == Seq::<Seq<char>>::empty(),
            !abs ==> start == Seq::<char>::empty() || start == seq!['.'],
            !abs && here ==> start == seq!['.'] && lead == seq![seq!['.']],
            !abs && !here ==> start == Seq::<char>::empty() && lead == Seq::<Seq<char>>::empty(),
            out@ == if abs { start + joined_parts(pv.take(i as int)) } else { joined_parts(lead + pv.take(i as int)) },
        decreases ps.len() - i,
    {
        let ghost before = out@;
        let ghost seen = lead + pv.take(i as int);
        let ghost now = lead + pv.take(i + 1);
        assert(now.drop_last() =~= seen);
        assert(now.last() == ps@[i as int]@);
        let wrote_something = if abs { i > 0 } else { i > 0 || here };
        if wrote_something {
            out.push('/');
        }
        let piece = &ps[i];
        let mut k: usize = 0;
        let ghost mid = out@;
        while k < piece.len()
            invariant
                k <= piece@.len(),
                out@ == mid + piece@.take(k as int),
            decreases piece.len() - k,
        {
            out.push(piece[k]);
            assert(piece@.take(k + 1) =~= piece@.take(k as int).push(piece@[k as int]));
            k = k + 1;
        }
        assert(piece@.take(piece@.len() as int) =~= piece@);
        proof {
            if abs {
                let pt = pv.take(i as int);
                let pn = pv.take(i + 1);
                assert(pn.drop_last() =~= pt);
                if i == 0 {
                    assert(pn.len() == 1);
                    assert(out@ =~= start + joined_parts(pn));
                } else {
                    assert(out@ =~= start + joined_parts(pn));
                }
            } else {
                if seen.len() == 0 {
                    assert(now.len() == 1);
                    assert(out@ =~= joined_parts(now));
                } else {
                    assert(out@ =~= joined_parts(now));
                }
            }
        }
        i = i + 1;
    }
    assert(pv.take(ps@.len() as int) =~= pv);
    proof {
        if !abs && here {
            assert(leads_with_here(path@));
        }
        if !abs && !here {
            assert(!leads_with_here(path@));
        }
    }
    string_of(out.as_slice())
}

} // verus!
