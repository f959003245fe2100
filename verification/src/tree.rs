//! The file tree, as a flat list of rows.
//!
//! A tree drawn as a tree is a tree that cannot be virtualised, so the shape is a tree and the
//! drawing is a list: [`Tree::rows`] flattens what is expanded, and the interface draws a window
//! onto that.
//!
//! Directories are read when they are opened and remembered afterwards, so closing and reopening
//! one costs nothing. Reading a directory is the caller's part: what it found is handed in, and
//! the tree keeps it. Every entry carries what sets it apart, and [`Filter`] decides from that
//! what is shown.
//!
//! Two paths are the same path when their components are, so the root and every path asked
//! about are taken in their normal form (`crate::names::normal`): `/p/`, `/p//` and `/p/.` are
//! all `/p`. The entries of a listing are kept as they were read.

use vstd::prelude::*;

use crate::language::{directory, directory_kind, kind_of, of, FileType};
use crate::names::{joined_path, normal, parent, parent_of, parts, parts_of};
use crate::text::{chars_of, string_of};

verus! {

/// What sets an entry apart from an ordinary one.
///
/// Two independent facts. A dotfile that git also leaves out is both.
#[derive(Clone, Copy, PartialEq, Eq, Structural, Debug)]
pub struct Standing {
    /// Whether its name begins with a dot.
    pub hidden: bool,
    /// Whether the ignore files leave it out.
    pub ignored: bool,
}

impl Default for Standing {
    fn default() -> (out: Self)
        ensures
            !out.hidden && !out.ignored,
    {
        Standing { hidden: false, ignored: false }
    }
}

impl Standing {
    /// Whether anything sets it apart at all.
    pub fn is_apart(self) -> (out: bool)
        ensures
            out == (self.hidden || self.ignored),
    {
        self.hidden || self.ignored
    }
}

/// One thing in a directory.
#[derive(Clone, Debug)]
pub struct Entry {
    /// Where it is.
    pub path: String,
    /// What it is called.
    pub name: String,
    /// Whether it is a directory.
    pub directory: bool,
    /// What sets it apart.
    pub standing: Standing,
}

impl Entry {
    /// What kind of thing it is, for its glyph and its grammar.
    pub fn file_type(&self) -> (out: FileType)
        ensures
            out@ == if self.directory { directory_kind() } else { kind_of(self.path@) },
    {
        if self.directory {
            directory()
        } else {
            of(self.path.as_str())
        }
    }

    /// The same entry again.
    pub fn copy(&self) -> (out: Entry)
        ensures
            out == *self,
    {
        Entry { path: self.path.clone(), name: self.name.clone(), directory: self.directory, standing: self.standing }
    }
}

/// One row of the drawn list.
#[derive(Clone, Debug)]
pub struct Row {
    /// What it stands for.
    pub entry: Entry,
    /// How far in it is, counting the root as zero.
    pub depth: usize,
    /// Whether it is a directory that is open.
    pub expanded: bool,
}

/// What to show and what to leave out.
#[derive(Clone, Copy, PartialEq, Eq, Structural, Debug)]
pub struct Filter {
    /// Whether to show what begins with a dot.
    pub hidden: bool,
    /// Whether to show what git ignores.
    pub ignored: bool,
}

impl Default for Filter {
    fn default() -> (out: Self)
        ensures
            !out.hidden && !out.ignored,
    {
        Filter { hidden: false, ignored: false }
    }
}

impl Filter {
    /// Whether an entry with this standing is shown: each thing that sets it apart needs its own
    /// permission.
    pub open spec fn allows(self, standing: Standing) -> bool {
        (self.hidden || !standing.hidden) && (self.ignored || !standing.ignored)
    }

    /// Whether an entry with this standing is shown.
    ///
    /// Each thing that sets an entry apart needs its own permission, so a dotfile that git also
    /// leaves out appears once both are asked for.
    pub fn keeps(self, standing: Standing) -> (out: bool)
        ensures
            out == self.allows(standing),
    {
        (self.hidden || !standing.hidden) && (self.ignored || !standing.ignored)
    }
}

/// How a character ranks when paths are compared: the separator before everything, so that
/// paths compare part by part.
pub open spec fn rank(c: char) -> int {
    if c == '/' { 0 } else { (c as u32) as int + 1 }
}

/// Whether path `a` comes before path `b`: compared part by part, a path before the paths under
/// it.
pub open spec fn path_before(a: Seq<char>, b: Seq<char>) -> bool
    decreases a.len(),
{
    if a.len() == 0 {
        b.len() > 0
    } else if b.len() == 0 {
        false
    } else if rank(a[0]) != rank(b[0]) {
        rank(a[0]) < rank(b[0])
    } else {
        path_before(a.skip(1), b.skip(1))
    }
}

/// `path_before` is an order: never both ways, and passed along.
pub proof fn lemma_path_order(a: Seq<char>, b: Seq<char>, c: Seq<char>)
    ensures
        !(path_before(a, b) && path_before(b, a)),
        !path_before(a, a),
        path_before(a, b) && path_before(b, c) ==> path_before(a, c),
        a != b ==> path_before(a, b) || path_before(b, a),
    decreases a.len(),
{
    if a.len() > 0 && b.len() > 0 && c.len() > 0 {
        lemma_path_order(a.skip(1), b.skip(1), c.skip(1));
    }
    if a.len() > 0 && b.len() > 0 {
        lemma_path_order(a.skip(1), b.skip(1), b.skip(1));
        if a != b && rank(a[0]) == rank(b[0]) {
            if a[0] != '/' && b[0] != '/' {
                assert(a[0] as u32 == b[0] as u32);
                vstd::utf8::char_u32_cast(a[0], a[0] as u32);
                vstd::utf8::char_u32_cast(b[0], b[0] as u32);
            }
            assert(a[0] == b[0]);
            if a.skip(1) == b.skip(1) {
                assert(a =~= b) by {
                    assert forall|i: int| 0 <= i < a.len() implies a[i] == b[i] by {
                        if i > 0 {
                            assert(a[i] == a.skip(1)[i - 1]);
                            assert(b[i] == b.skip(1)[i - 1]);
                        }
                    }
                }
            }
        }
    }
    if a.len() > 0 {
        lemma_path_order(a.skip(1), a.skip(1), a.skip(1));
    }
    if a.len() == 0 && b.len() == 0 {
        assert(a =~= b);
    }
}

/// Whether `a` comes before `b`.
pub(crate) fn before(a: &str, b: &str) -> (out: bool)
    ensures
        out == path_before(a@, b@),
{
    let x = chars_of(a);
    let y = chars_of(b);
    let mut i: usize = 0;
    assert(x@.skip(0) =~= x@);
    assert(y@.skip(0) =~= y@);
    while i < x.len() && i < y.len() && x[i] == y[i]
        invariant
            i <= x@.len(),
            i <= y@.len(),
            x@ == a@,
            y@ == b@,
            path_before(a@, b@) == path_before(x@.skip(i as int), y@.skip(i as int)),
        decreases x.len() - i,
    {
        let ghost xs = x@.skip(i as int);
        let ghost ys = y@.skip(i as int);
        assert(xs.skip(1) =~= x@.skip(i + 1));
        assert(ys.skip(1) =~= y@.skip(i + 1));
        assert(xs[0] == x@[i as int] && ys[0] == y@[i as int]);
        i = i + 1;
    }
    let ghost xs = x@.skip(i as int);
    let ghost ys = y@.skip(i as int);
    if i == x.len() {
        return i < y.len();
    }
    if i == y.len() {
        return false;
    }
    assert(xs[0] == x@[i as int] && ys[0] == y@[i as int]);
    let p = x[i];
    let q = y[i];
    proof {
        if p != '/' && q != '/' {
            vstd::utf8::char_u32_cast(p, p as u32);
            vstd::utf8::char_u32_cast(q, q as u32);
        }
        assert(rank(xs[0]) != rank(ys[0]));
    }
    if p == '/' {
        q != '/'
    } else if q == '/' {
        false
    } else {
        (p as u32) < (q as u32)
    }
}

/// Whether `a` and `b` are the same text.
fn same(a: &String, b: &String) -> (out: bool)
    ensures
        out == (a@ == b@),
{
    *a == *b
}

/// What a tree holds: its root, its filter, its open directories in order, and what each
/// directory that has been read holds.
pub struct TreeView {
    pub root: Seq<char>,
    pub filter: Filter,
    pub open: Seq<Seq<char>>,
    pub listings: Seq<(Seq<char>, Seq<Entry>)>,
}

/// What directory `dir` was read to hold, when it has been read.
pub open spec fn listing_of(listings: Seq<(Seq<char>, Seq<Entry>)>, dir: Seq<char>) -> Option<Seq<Entry>>
    decreases listings.len(),
{
    if listings.len() == 0 {
        None
    } else if listings.last().0 == dir {
        Some(listings.last().1)
    } else {
        listing_of(listings.drop_last(), dir)
    }
}

/// Whether `open` is in order, each directory once.
pub open spec fn in_path_order(open: Seq<Seq<char>>) -> bool {
    forall|i: int, j: int| 0 <= i < j < open.len() ==> path_before(#[trigger] open[i], #[trigger] open[j])
}


/// Whether `after` is `before` with `path` opened: nothing changes when it is not a directory;
/// otherwise it is open, and `entries` are what it holds unless it had been read already.
pub open spec fn opened(before: TreeView, after: TreeView, path: Seq<char>, is_dir: bool, entries: Seq<Entry>) -> bool {
    if !is_dir {
        after == before
    } else {
        &&& after.root == before.root
        &&& after.filter == before.filter
        &&& after.open.to_set() == before.open.to_set().insert(path)
        &&& after.listings == if listing_of(before.listings, path) is None {
            before.listings.push((path, entries))
        } else {
            before.listings
        }
    }
}

/// Whether `after` is `before` with `path` closed, and what was read still read.
pub open spec fn closed(before: TreeView, after: TreeView, path: Seq<char>) -> bool {
    &&& after.root == before.root
    &&& after.filter == before.filter
    &&& after.listings == before.listings
    &&& after.open.to_set() == before.open.to_set().remove(path)
}

/// What one operation does to where a tree is rooted and what it shows: `set_filter` keeps the
/// root and shows what its filter says (`Some`); every other operation keeps both (`None`).
pub open spec fn placed_step(before: TreeView, after: TreeView, filter: Option<Filter>) -> bool {
    &&& after.root == before.root
    &&& after.filter == match filter {
        Some(f) => f,
        None => before.filter,
    }
}

/// Opening keeps where a tree is rooted and what it shows.
pub proof fn lemma_opened_in_place(before: TreeView, after: TreeView, path: Seq<char>, is_dir: bool, entries: Seq<Entry>)
    requires
        opened(before, after, path, is_dir, entries),
    ensures
        placed_step(before, after, None),
{
}

/// Closing keeps where a tree is rooted and what it shows.
pub proof fn lemma_closed_in_place(before: TreeView, after: TreeView, path: Seq<char>)
    requires
        closed(before, after, path),
    ensures
        placed_step(before, after, None),
{
}

/// Whatever a tree goes through, it stays rooted where it was made, and it shows what the last
/// filter set on it says: after any run of operations none of which sets a filter, the filter is
/// the one it had before them.
pub proof fn law_a_tree_stays_where_it_was_rooted(views: Seq<TreeView>, filters: Seq<Option<Filter>>)
    requires
        views.len() == filters.len() + 1,
        forall|k: int| 0 <= k < filters.len() ==> placed_step(views[k], views[k + 1], #[trigger] filters[k]),
    ensures
        forall|k: int| 0 <= k < views.len() ==> (#[trigger] views[k]).root == views[0].root,
        forall|k: int|
            0 <= k < views.len() && (forall|j: int| 0 <= j < k ==> (#[trigger] filters[j]) is None) ==> (
            #[trigger] views[k]).filter == views[0].filter,
    decreases filters.len(),
{
    if filters.len() > 0 {
        let n = filters.len() - 1;
        law_a_tree_stays_where_it_was_rooted(views.drop_last(), filters.drop_last());
        assert(placed_step(views[n], views[n + 1], filters[n]));
        assert forall|k: int| 0 <= k < views.len() implies (#[trigger] views[k]).root == views[0].root by {
            if k < views.len() - 1 {
                assert(views.drop_last()[k] == views[k]);
            } else {
                assert(views.drop_last()[n] == views[n]);
            }
        }
        assert forall|k: int|
            0 <= k < views.len() && (forall|j: int| 0 <= j < k ==> (#[trigger] filters[j]) is None) implies (
            #[trigger] views[k]).filter == views[0].filter by {
            if k < views.len() - 1 {
                assert(views.drop_last()[k] == views[k]);
                assert forall|j: int| 0 <= j < k implies (#[trigger] filters.drop_last()[j]) is None by {
                    assert(filters.drop_last()[j] == filters[j]);
                }
            } else {
                assert(views.drop_last()[n] == views[n]);
                assert(filters[n] is None);
                assert forall|j: int| 0 <= j < n implies (#[trigger] filters.drop_last()[j]) is None by {
                    assert(filters.drop_last()[j] == filters[j]);
                }
            }
        }
    }
}

/// Whether `after` is `before` with `path` toggled: closed when it was open, else opened.
pub open spec fn toggled(before: TreeView, after: TreeView, path: Seq<char>, is_dir: bool, entries: Seq<Entry>) -> bool {
    if before.open.contains(path) {
        closed(before, after, path)
    } else {
        opened(before, after, path, is_dir, entries)
    }
}

/// The rows of two trees that hold the same listings and have the same directories open are the
/// same: the order the open ones were opened in does not show.
pub proof fn lemma_rows_in_same(t1: TreeView, t2: TreeView, dir: Seq<char>, depth: int)
    requires
        t1.listings == t2.listings,
        t1.open.to_set() == t2.open.to_set(),
    ensures
        rows_in(t1, dir, depth) == rows_in(t2, dir, depth),
    decreases t1.listings.len() - depth + 1, 0int,
{
    if 0 <= depth < t1.listings.len() {
        if let Some(entries) = listing_of(t1.listings, dir) {
            lemma_rows_of_same(t1, t2, entries, depth);
        }
    }
}

/// The same, for the rows of a list of entries.
pub proof fn lemma_rows_of_same(t1: TreeView, t2: TreeView, entries: Seq<Entry>, depth: int)
    requires
        t1.listings == t2.listings,
        t1.open.to_set() == t2.open.to_set(),
    ensures
        rows_of(t1, entries, depth) == rows_of(t2, entries, depth),
    decreases t1.listings.len() - depth, entries.len(),
{
    if entries.len() > 0 && 0 <= depth < t1.listings.len() {
        let e = entries[0];
        assert(t1.open.contains(e.path@) == t1.open.to_set().contains(e.path@));
        assert(t2.open.contains(e.path@) == t2.open.to_set().contains(e.path@));
        if e.directory && t1.open.contains(e.path@) {
            lemma_rows_in_same(t1, t2, e.path@, depth + 1);
        }
        lemma_rows_of_same(t1, t2, entries.skip(1), depth);
    }
}

/// Toggling a directory that has been read twice puts the tree back as it was, and shows the same
/// rows: closing and reopening reads nothing, and opening and closing leaves only what was there.
pub proof fn law_toggling_twice_puts_the_rows_back(
    before: TreeView,
    mid: TreeView,
    after: TreeView,
    path: Seq<char>,
    first: Seq<Entry>,
    second: Seq<Entry>,
)
    requires
        listing_of(before.listings, path) is Some,
        toggled(before, mid, path, true, first),
        toggled(mid, after, path, true, second),
    ensures
        after.root == before.root,
        after.filter == before.filter,
        after.listings == before.listings,
        after.open.to_set() == before.open.to_set(),
        rows_in(after, after.root, 0) == rows_in(before, before.root, 0),
{
    assert(before.open.contains(path) == before.open.to_set().contains(path));
    assert(mid.open.contains(path) == mid.open.to_set().contains(path));
    if before.open.contains(path) {
        assert(before.open.to_set().remove(path).insert(path) =~= before.open.to_set());
    } else {
        assert(before.open.to_set().insert(path).remove(path) =~= before.open.to_set());
    }
    lemma_rows_in_same(after, before, before.root, 0);
}

/// The directories `listings` holds what was read of.
pub open spec fn listed_dirs(listings: Seq<(Seq<char>, Seq<Entry>)>) -> Set<Seq<char>> {
    listings.map_values(|l: (Seq<char>, Seq<Entry>)| l.0).to_set()
}

/// Whether every entry read of a directory is under it, as reading a directory gives: its path
/// is longer than the directory's.
pub open spec fn entries_under(listings: Seq<(Seq<char>, Seq<Entry>)>) -> bool {
    forall|i: int, j: int|
        0 <= i < listings.len() && 0 <= j < listings[i].1.len() ==> (#[trigger] listings[i].1[j]).path@.len()
            > listings[i].0.len()
}

/// What `listing_of` answers was read of that directory.
proof fn lemma_listing_of(listings: Seq<(Seq<char>, Seq<Entry>)>, dir: Seq<char>)
    requires
        listing_of(listings, dir) is Some,
        entries_under(listings),
    ensures
        listed_dirs(listings).contains(dir),
        forall|j: int|
            0 <= j < listing_of(listings, dir).unwrap().len() ==> (#[trigger] listing_of(listings, dir).unwrap()[j]).path@.len()
                > dir.len(),
    decreases listings.len(),
{
    let n = listings.len() - 1;
    let keys = listings.map_values(|l: (Seq<char>, Seq<Entry>)| l.0);
    if listings.last().0 == dir {
        assert(keys[n] == dir);
        assert forall|j: int| 0 <= j < listing_of(listings, dir).unwrap().len() implies (#[trigger] listing_of(
            listings,
            dir,
        ).unwrap()[j]).path@.len() > dir.len() by {
            assert(listings[n].1[j] == listing_of(listings, dir).unwrap()[j]);
        }
    } else {
        let front = listings.drop_last();
        assert(entries_under(front)) by {
            assert forall|i: int, j: int| 0 <= i < front.len() && 0 <= j < front[i].1.len() implies (
            #[trigger] front[i].1[j]).path@.len() > front[i].0.len() by {
                assert(front[i] == listings[i]);
            }
        }
        lemma_listing_of(front, dir);
        let fk = front.map_values(|l: (Seq<char>, Seq<Entry>)| l.0);
        let k = choose|k: int| 0 <= k < fk.len() && fk[k] == dir;
        assert(keys[k] == fk[k]);
    }
}

/// The rows under `dir` are the same once one more closed directory `p` has been read: nothing
/// shows what a closed directory holds.
proof fn lemma_rows_in_extra(
    t1: TreeView,
    t2: TreeView,
    p: Seq<char>,
    extra: Seq<Entry>,
    dir: Seq<char>,
    depth: int,
    above: Set<Seq<char>>,
)
    requires
        t2.listings == t1.listings.push((p, extra)),
        t1.open.to_set() == t2.open.to_set(),
        !t1.open.contains(p),
        dir != p,
        entries_under(t1.listings),
        0 <= depth,
        above.finite(),
        above.len() == depth,
        forall|a: Seq<char>| #[trigger] above.contains(a) ==> listed_dirs(t1.listings).contains(a) && a.len() < dir.len(),
    ensures
        rows_in(t2, dir, depth) == rows_in(t1, dir, depth),
    decreases t1.listings.len() - depth + 1, 0int,
{
    let keys = listed_dirs(t1.listings);
    t1.listings.map_values(|l: (Seq<char>, Seq<Entry>)| l.0).lemma_cardinality_of_set();
    vstd::set_lib::lemma_len_subset(above, keys);
    assert(listing_of(t2.listings, dir) == listing_of(t1.listings, dir)) by {
        assert(t2.listings.drop_last() =~= t1.listings);
    }
    if let Some(entries) = listing_of(t1.listings, dir) {
        lemma_listing_of(t1.listings, dir);
        assert(!above.contains(dir));
        vstd::set_lib::lemma_len_subset(above.insert(dir), keys);
        lemma_rows_of_extra(t1, t2, p, extra, dir, entries, depth, above);
    }
}

/// The same, for the rows of what `dir` was read to hold.
proof fn lemma_rows_of_extra(
    t1: TreeView,
    t2: TreeView,
    p: Seq<char>,
    extra: Seq<Entry>,
    dir: Seq<char>,
    entries: Seq<Entry>,
    depth: int,
    above: Set<Seq<char>>,
)
    requires
        t2.listings == t1.listings.push((p, extra)),
        t1.open.to_set() == t2.open.to_set(),
        !t1.open.contains(p),
        entries_under(t1.listings),
        0 <= depth < t1.listings.len(),
        above.finite(),
        above.len() == depth,
        !above.contains(dir),
        listed_dirs(t1.listings).contains(dir),
        forall|a: Seq<char>| #[trigger] above.contains(a) ==> listed_dirs(t1.listings).contains(a) && a.len() < dir.len(),
        forall|j: int| 0 <= j < entries.len() ==> (#[trigger] entries[j]).path@.len() > dir.len(),
    ensures
        rows_of(t2, entries, depth) == rows_of(t1, entries, depth),
    decreases t1.listings.len() - depth, entries.len(),
{
    if entries.len() > 0 {
        let e = entries[0];
        assert(t1.open.contains(e.path@) == t1.open.to_set().contains(e.path@));
        assert(t2.open.contains(e.path@) == t2.open.to_set().contains(e.path@));
        if e.directory && t1.open.contains(e.path@) {
            let next = above.insert(dir);
            assert(next.len() == depth + 1);
            assert forall|a: Seq<char>| #[trigger] next.contains(a) implies listed_dirs(t1.listings).contains(a)
                && a.len() < e.path@.len() by {
                if a != dir {
                    assert(above.contains(a));
                }
            }
            lemma_rows_in_extra(t1, t2, p, extra, e.path@, depth + 1, next);
        }
        assert forall|j: int| 0 <= j < entries.skip(1).len() implies (#[trigger] entries.skip(1)[j]).path@.len()
            > dir.len() by {
            assert(entries.skip(1)[j] == entries[j + 1]);
        }
        lemma_rows_of_extra(t1, t2, p, extra, dir, entries.skip(1), depth, above);
    }
}

/// Toggling a closed directory that has not been read twice shows the same rows as before: it
/// is read on the way open, and what a closed directory holds does not show.
///
/// For a directory other than the one the tree is rooted at, whose rows show whether it is open
/// or not, and for listings whose entries are under their directories, as reading gives them.
pub proof fn law_toggling_an_unread_directory_twice_puts_the_rows_back(
    before: TreeView,
    mid: TreeView,
    after: TreeView,
    path: Seq<char>,
    first: Seq<Entry>,
    second: Seq<Entry>,
)
    requires
        !before.open.contains(path),
        listing_of(before.listings, path) is None,
        path != before.root,
        entries_under(before.listings),
        toggled(before, mid, path, true, first),
        toggled(mid, after, path, true, second),
    ensures
        after.root == before.root,
        after.filter == before.filter,
        after.open.to_set() == before.open.to_set(),
        after.listings == before.listings.push((path, first)),
        rows_in(after, after.root, 0) == rows_in(before, before.root, 0),
{
    assert(before.open.contains(path) == before.open.to_set().contains(path));
    assert(mid.open.contains(path) == mid.open.to_set().contains(path));
    assert(before.open.to_set().insert(path).remove(path) =~= before.open.to_set());
    assert forall|a: Seq<char>| #[trigger] Set::<Seq<char>>::empty().contains(a) implies listed_dirs(
        before.listings,
    ).contains(a) && a.len() < before.root.len() by {}
    lemma_rows_in_extra(before, after, path, first, before.root, 0, Set::empty());
}

/// Closing an open directory and opening it again puts the tree back as it was, reading
/// nothing: what was read stays read.
pub proof fn law_reopening_reads_nothing(
    before: TreeView,
    shut: TreeView,
    after: TreeView,
    path: Seq<char>,
    entries: Seq<Entry>,
)
    requires
        before.open.contains(path),
        listing_of(before.listings, path) is Some,
        closed(before, shut, path),
        opened(shut, after, path, true, entries),
    ensures
        after.root == before.root,
        after.filter == before.filter,
        after.listings == before.listings,
        after.open.to_set() == before.open.to_set(),
        rows_in(after, after.root, 0) == rows_in(before, before.root, 0),
{
    assert(before.open.to_set().contains(path));
    assert(before.open.to_set().remove(path).insert(path) =~= before.open.to_set());
    lemma_rows_in_same(after, before, before.root, 0);
}

/// A directory comes before everything under it, which is what lets directories be opened in
/// the order they are listed.
pub proof fn law_parents_before_children(dir: Seq<char>, name: Seq<char>)
    requires
        name.len() > 0,
    ensures
        path_before(dir, joined_path(dir, name)),
{
    let j = joined_path(dir, name);
    assert(j.take(dir.len() as int) =~= dir);
    lemma_prefix_before(dir, j);
}

/// A path comes before any longer path that starts with it.
proof fn lemma_prefix_before(a: Seq<char>, b: Seq<char>)
    requires
        a.len() < b.len(),
        b.take(a.len() as int) == a,
    ensures
        path_before(a, b),
    decreases a.len(),
{
    if a.len() > 0 {
        assert(b[0] == a[0]) by {
            assert(b.take(a.len() as int)[0] == b[0]);
        }
        assert(b.skip(1).take(a.len() - 1) =~= a.skip(1)) by {
            assert forall|i: int| 0 <= i < a.len() - 1 implies b.skip(1)[i] == a.skip(1)[i] by {
                assert(b.take(a.len() as int)[i + 1] == b[i + 1]);
            }
        }
        lemma_prefix_before(a.skip(1), b.skip(1));
    }
}

/// The tree.
pub struct Tree {
    root: String,
    filter: Filter,
    /// Which directories are open, in path order.
    expanded: Vec<String>,
    /// What is in each directory that has been read.
    children: Vec<(String, Vec<Entry>)>,
}

impl View for Tree {
    type V = TreeView;

    closed spec fn view(&self) -> TreeView {
        TreeView {
            root: self.root@,
            filter: self.filter,
            open: self.expanded@.map_values(|p: String| p@),
            listings: self.children@.map_values(|c: (String, Vec<Entry>)| (c.0@, c.1@)),
        }
    }
}

impl Tree {
    /// The open directories are in path order.
    #[verifier::type_invariant]
    closed spec fn sound(self) -> bool {
        in_path_order(self.expanded@.map_values(|p: String| p@))
    }

    /// A tree over `root`, with nothing open yet.
    fn new_at(root: &str, filter: Filter) -> (out: Tree)
        ensures
            out@.root == root@,
            out@.filter == filter,
            out@.open == Seq::<Seq<char>>::empty(),
            out@.listings == Seq::<(Seq<char>, Seq<Entry>)>::empty(),
    {
        let out = Tree { root: string_of(chars_of(root).as_slice()), filter, expanded: Vec::new(), children: Vec::new() };
        assert(out.expanded@.map_values(|p: String| p@) =~= Seq::<Seq<char>>::empty());
        assert(out.children@.map_values(|c: (String, Vec<Entry>)| (c.0@, c.1@)) =~= Seq::<(Seq<char>, Seq<Entry>)>::empty());
        out
    }

    /// The directory it is rooted at.
    pub fn root(&self) -> (out: &str)
        ensures
            out@ == self@.root,
    {
        self.root.as_str()
    }

    /// What it is showing and leaving out.
    pub fn filter(&self) -> (out: Filter)
        ensures
            out == self@.filter,
    {
        self.filter
    }

    /// Changes what it shows, and forgets everything read under the old rule.
    pub fn set_filter(&mut self, filter: Filter)
        ensures
            final(self)@.root == old(self)@.root,
            final(self)@.filter == filter,
            final(self)@.open == old(self)@.open,
            final(self)@.listings == if filter == old(self)@.filter {
                old(self)@.listings
            } else {
                Seq::<(Seq<char>, Seq<Entry>)>::empty()
            },
    {
        proof {
            use_type_invariant(&*self);
        }
        if self.filter != filter {
            self.filter = filter;
            self.children = Vec::new();
            assert(self.children@.map_values(|c: (String, Vec<Entry>)| (c.0@, c.1@)) =~= Seq::<(Seq<char>, Seq<Entry>)>::empty());
        }
    }

    /// What `dir` was read to hold, by its place in `children`.
    fn listing_index(&self, dir: &String) -> (out: Option<usize>)
        ensures
            match out {
                Some(k) => k < self.children@.len() && self.children@[k as int].0@ == dir@ && listing_of(self@.listings, dir@)
                    == Some(self.children@[k as int].1@),
                None => listing_of(self@.listings, dir@) is None,
            },
    {
        let ghost ls = self@.listings;
        let mut i: usize = self.children.len();
        assert(ls.take(ls.len() as int) =~= ls);
        while i > 0
            invariant
                i <= self.children@.len(),
                ls == self@.listings,
                listing_of(ls, dir@) == listing_of(ls.take(i as int), dir@),
            decreases i,
        {
            assert(ls.take(i as int).drop_last() =~= ls.take(i - 1));
            assert(ls.take(i as int).last() == (self.children@[i - 1].0@, self.children@[i - 1].1@));
            if same(&self.children[i - 1].0, dir) {
                return Some(i - 1);
            }
            i = i - 1;
        }
        None
    }

    /// Where `path` is among the open directories.
    fn open_index(&self, path: &String) -> (out: Option<usize>)
        ensures
            match out {
                Some(k) => k < self@.open.len() && self@.open[k as int] == path@,
                None => !self@.open.contains(path@),
            },
    {
        let ghost open = self@.open;
        let mut i: usize = 0;
        while i < self.expanded.len()
            invariant
                i <= self.expanded@.len(),
                open == self@.open,
                forall|j: int| 0 <= j < i ==> open[j] != path@,
            decreases self.expanded.len() - i,
        {
            assert(open[i as int] == self.expanded@[i as int]@);
            if same(&self.expanded[i], path) {
                return Some(i);
            }
            i = i + 1;
        }
        None
    }

    /// Whether `path` is a directory, as the rows that have been read say: the root is one, and
    /// so is an entry read as a directory in the listing of the directory it is in.
    ///
    /// Answered from what has been walked, and never from the file system.
    fn is_directory_at(&self, path: &str) -> (out: bool)
        ensures
            out == (path@ == self@.root || match parent(path@) {
                Some(up) => match listing_of(self@.listings, up) {
                    Some(entries) => exists|k: int| 0 <= k < entries.len() && normal(entries[k].path@) == path@ && entries[k].directory,
                    None => false,
                },
                None => false,
            }),
    {
        let p = string_of(chars_of(path).as_slice());
        if same(&p, &self.root) {
            return true;
        }
        let up = match parent_of(path) {
            Some(up) => up,
            None => return false,
        };
        let at = match self.listing_index(&up) {
            Some(at) => at,
            None => return false,
        };
        let entries = &self.children[at].1;
        let mut i: usize = 0;
        while i < entries.len()
            invariant
                i <= entries@.len(),
                p@ == path@,
                parent(path@) == Some(up@),
                listing_of(self@.listings, up@) == Some(entries@),
                forall|k: int| 0 <= k < i ==> !(normal(entries@[k].path@) == path@ && entries@[k].directory),
            decreases entries.len() - i,
        {
            if entries[i].directory && same(&crate::names::normalize(entries[i].path.as_str()), &p) {
                assert(normal(entries@[i as int].path@) == path@ && entries@[i as int].directory);
                proof {
                    let u = parent(path@).unwrap();
                    assert(u == up@);
                    let es = listing_of(self@.listings, u).unwrap();
                    assert(es == entries@);
                    assert(normal(es[i as int].path@) == path@ && es[i as int].directory);
                }
                assert(match parent(path@) {
                    Some(u) => match listing_of(self@.listings, u) {
                        Some(es) => exists|k: int| 0 <= k < es.len() && normal(es[k].path@) == path@ && es[k].directory,
                        None => false,
                    },
                    None => false,
                });
                return true;
            }
            i = i + 1;
        }
        false
    }

    /// Whether `path` is an open directory.
    fn is_expanded_at(&self, path: &str) -> (out: bool)
        ensures
            out == self@.open.contains(path@),
    {
        let p = string_of(chars_of(path).as_slice());
        self.open_index(&p).is_some()
    }

    /// Adds `path` to the open directories, keeping their order.
    fn open_path(&mut self, path: String)
        ensures
            final(self)@.root == old(self)@.root,
            final(self)@.filter == old(self)@.filter,
            final(self)@.listings == old(self)@.listings,
            final(self)@.open.to_set() == old(self)@.open.to_set().insert(path@),
    {
        proof {
            use_type_invariant(&*self);
        }
        let ghost open = self@.open;
        let mut p: usize = 0;
        while p < self.expanded.len() && before(self.expanded[p].as_str(), path.as_str())
            invariant
                p <= self.expanded@.len(),
                open == self.expanded@.map_values(|s: String| s@),
                forall|i: int| 0 <= i < p ==> path_before(#[trigger] open[i], path@),
            decreases self.expanded.len() - p,
        {
            assert(open[p as int] == self.expanded@[p as int]@);
            p = p + 1;
        }
        if p < self.expanded.len() && same(&self.expanded[p], &path) {
            assert(open[p as int] == path@);
            assert(open.to_set().insert(path@) =~= open.to_set());
            return;
        }
        proof {
            if p < open.len() {
                assert(open[p as int] == self.expanded@[p as int]@);
                lemma_path_order(path@, open[p as int], path@);
            }
        }
        let mut expanded = Vec::new();
        std::mem::swap(&mut expanded, &mut self.expanded);
        expanded.insert(p, path);
        let ghost now = expanded@.map_values(|s: String| s@);
        proof {
            assert(now =~= open.insert(p as int, path@));
            assert forall|i: int, j: int| 0 <= i < j < now.len() implies path_before(#[trigger] now[i], #[trigger] now[j]) by {
                if j < p {
                    assert(now[i] == open[i] && now[j] == open[j]);
                } else if j == p {
                    assert(now[i] == open[i]);
                } else if i < p {
                    assert(now[i] == open[i] && now[j] == open[j - 1]);
                    lemma_path_order(open[i], path@, open[p as int]);
                    if j - 1 > p {
                        lemma_path_order(open[i], open[p as int], open[j - 1]);
                    }
                } else if i == p {
                    assert(now[j] == open[j - 1]);
                    if j - 1 > p {
                        lemma_path_order(path@, open[p as int], open[j - 1]);
                    }
                } else {
                    assert(now[i] == open[i - 1] && now[j] == open[j - 1]);
                }
            }
            assert(now.to_set() =~= open.to_set().insert(path@)) by {
                assert forall|x: Seq<char>| now.to_set().contains(x) <==> open.to_set().insert(path@).contains(x) by {
                    if now.contains(x) {
                        let k = choose|k: int| 0 <= k < now.len() && now[k] == x;
                        if k < p {
                            assert(open[k] == x);
                        } else if k > p {
                            assert(open[k - 1] == x);
                        }
                    }
                    if open.contains(x) {
                        let k = choose|k: int| 0 <= k < open.len() && open[k] == x;
                        if k < p {
                            assert(now[k] == x);
                        } else {
                            assert(now[k + 1] == x);
                        }
                    }
                    if x == path@ {
                        assert(now[p as int] == x);
                    }
                }
            }
        }
        self.expanded = expanded;
    }

    /// Opens `path`, keeping `entries` as what it holds unless it has been read already.
    ///
    /// Reading the directory is the caller's part, and so is saying whether `path` is a
    /// directory at all; something that is not one is left alone.
    fn expand_at(&mut self, path: &str, is_dir: bool, entries: Vec<Entry>)
        ensures
            opened(old(self)@, final(self)@, path@, is_dir, entries@),
    {
        proof {
            use_type_invariant(&*self);
        }
        if !is_dir {
            return;
        }
        let p = string_of(chars_of(path).as_slice());
        if self.listing_index(&p).is_none() {
            let ghost before = self@.listings;
            let mut children = Vec::new();
            std::mem::swap(&mut children, &mut self.children);
            children.push((p.clone(), entries));
            self.children = children;
            assert(self@.listings =~= before.push((path@, entries@)));
        }
        self.open_path(p);
    }

    /// Every directory that is open, parents before children.
    pub fn expanded(&self) -> (out: Vec<String>)
        ensures
            out@.map_values(|p: String| p@) == self@.open,
            in_path_order(self@.open),
    {
        proof {
            use_type_invariant(self);
        }
        let mut out: Vec<String> = Vec::new();
        let mut i: usize = 0;
        while i < self.expanded.len()
            invariant
                i <= self.expanded@.len(),
                out@.len() == i,
                forall|j: int| 0 <= j < i ==> #[trigger] out@[j]@ == self.expanded@[j]@,
            decreases self.expanded.len() - i,
        {
            out.push(self.expanded[i].clone());
            i = i + 1;
        }
        assert(out@.map_values(|p: String| p@) =~= self@.open);
        out
    }

    /// Closes `path`. What was read stays read.
    fn collapse_at(&mut self, path: &str)
        ensures
            closed(old(self)@, final(self)@, path@),
    {
        proof {
            use_type_invariant(&*self);
        }
        let p = string_of(chars_of(path).as_slice());
        let ghost open = self@.open;
        match self.open_index(&p) {
            None => {
                assert(open.to_set().remove(path@) =~= open.to_set());
            },
            Some(k) => {
                let mut expanded = Vec::new();
                std::mem::swap(&mut expanded, &mut self.expanded);
                expanded.remove(k);
                let ghost now = expanded@.map_values(|s: String| s@);
                proof {
                    assert(now =~= open.remove(k as int));
                    assert forall|i: int, j: int| 0 <= i < j < now.len() implies path_before(#[trigger] now[i], #[trigger] now[j]) by {
                        if j < k {
                            assert(now[i] == open[i] && now[j] == open[j]);
                        } else if i < k {
                            assert(now[i] == open[i] && now[j] == open[j + 1]);
                        } else {
                            assert(now[i] == open[i + 1] && now[j] == open[j + 1]);
                        }
                    }
                    assert forall|x: Seq<char>| now.to_set().contains(x) <==> open.to_set().remove(path@).contains(x) by {
                        if now.contains(x) {
                            let m = choose|m: int| 0 <= m < now.len() && now[m] == x;
                            if m < k {
                                assert(open[m] == x);
                                lemma_path_order(open[m], open[k as int], open[m]);
                            } else {
                                assert(open[m + 1] == x);
                                lemma_path_order(open[k as int], open[m + 1], open[k as int]);
                            }
                        }
                        if open.contains(x) && x != path@ {
                            let m = choose|m: int| 0 <= m < open.len() && open[m] == x;
                            if m < k {
                                assert(now[m] == x);
                            } else {
                                assert(m != k);
                                assert(now[m - 1] == x);
                            }
                        }
                    }
                    assert(now.to_set() =~= open.to_set().remove(path@));
                }
                self.expanded = expanded;
            },
        }
    }
}

/// The rows under directory `dir` at `depth`, and under each open directory among them, in the
/// order they are drawn. A directory nests no deeper than there are directories read.
pub open spec fn rows_in(t: TreeView, dir: Seq<char>, depth: int) -> Seq<Row>
    decreases t.listings.len() - depth + 1, 0int,
{
    if depth < 0 || depth >= t.listings.len() {
        seq![]
    } else {
        match listing_of(t.listings, dir) {
            Some(entries) => rows_of(t, entries, depth),
            None => seq![],
        }
    }
}

/// The rows for `entries` at `depth`: each entry, followed by the rows under it when it is an
/// open directory.
pub open spec fn rows_of(t: TreeView, entries: Seq<Entry>, depth: int) -> Seq<Row>
    decreases t.listings.len() - depth, entries.len(),
{
    if entries.len() == 0 || depth < 0 || depth >= t.listings.len() {
        seq![]
    } else {
        let e = entries[0];
        let open = e.directory && t.open.contains(e.path@);
        seq![Row { entry: e, depth: depth as usize, expanded: open }] + (if open {
            rows_in(t, e.path@, depth + 1)
        } else {
            seq![]
        }) + rows_of(t, entries.skip(1), depth)
    }
}

/// What the lines on the way from `root` down through `comps` are called.
pub open spec fn walk_to(root: Seq<char>, comps: Seq<Seq<char>>) -> Seq<char>
    decreases comps.len(),
{
    if comps.len() == 0 {
        root
    } else {
        joined_path(walk_to(root, comps.drop_last()), comps.last())
    }
}

/// The directories to open, in order, to show `path` in a tree rooted at `root`: the root, then
/// each directory on the way down to `path`, not `path` itself. Nothing for a path outside the
/// root.
pub open spec fn reveal_steps(root: Seq<char>, path: Seq<char>) -> Seq<Seq<char>> {
    if crate::repo::under(path, root) {
        let comps = parts(path.skip(root.len() as int));
        Seq::new(if comps.len() == 0 { 1 } else { comps.len() }, |i: int| walk_to(root, comps.take(i)))
    } else {
        seq![]
    }
}

/// The directories still open after a refresh: those that were found to be directories still.
pub open spec fn still_open(found: Seq<(Seq<char>, Option<Seq<Entry>>)>) -> Seq<Seq<char>>
    decreases found.len(),
{
    if found.len() == 0 {
        seq![]
    } else if found.last().1 is Some {
        still_open(found.drop_last()).push(found.last().0)
    } else {
        still_open(found.drop_last())
    }
}

/// What is read after a refresh: each directory found, with what it holds now.
pub open spec fn relisted(found: Seq<(Seq<char>, Option<Seq<Entry>>)>) -> Seq<(Seq<char>, Seq<Entry>)>
    decreases found.len(),
{
    if found.len() == 0 {
        seq![]
    } else {
        match found.last().1 {
            Some(entries) => relisted(found.drop_last()).push((found.last().0, entries)),
            None => relisted(found.drop_last()),
        }
    }
}

/// A refresh's findings as the spec sees them.
pub open spec fn findings(found: Seq<(String, Option<Vec<Entry>>)>) -> Seq<(Seq<char>, Option<Seq<Entry>>)> {
    found.map_values(|f: (String, Option<Vec<Entry>>)| (f.0@, match f.1 {
        Some(v) => Some(v@),
        None => None,
    }))
}

/// What is read after opening each of `items`, one after the other.
pub open spec fn listings_after(
    listings: Seq<(Seq<char>, Seq<Entry>)>,
    items: Seq<(Seq<char>, bool, Seq<Entry>)>,
) -> Seq<(Seq<char>, Seq<Entry>)>
    decreases items.len(),
{
    if items.len() == 0 {
        listings
    } else {
        let prior = listings_after(listings, items.drop_last());
        let item = items.last();
        if item.1 && listing_of(prior, item.0) is None {
            prior.push((item.0, item.2))
        } else {
            prior
        }
    }
}

/// The directories among `items` that were found to be directories.
pub open spec fn opened_dirs(items: Seq<(Seq<char>, bool, Seq<Entry>)>) -> Set<Seq<char>> {
    Set::new(|p: Seq<char>| exists|k: int| 0 <= k < items.len() && #[trigger] items[k].0 == p && items[k].1)
}

impl Tree {
    /// Opens it if it is closed and closes it if it is open.
    fn toggle_at(&mut self, path: &str, is_dir: bool, entries: Vec<Entry>)
        ensures
            toggled(old(self)@, final(self)@, path@, is_dir, entries@),
    {
        if self.is_expanded_at(path) {
            self.collapse_at(path);
        } else {
            self.expand_at(path, is_dir, entries);
        }
    }

    /// Forgets what was read, keeping what is open, and takes what each open directory holds now.
    ///
    /// `found` says, for each open directory in order, what reading it again found: what it
    /// holds, or that it is no longer a directory, in which case it stops being open.
    pub fn refresh(&mut self, found: Vec<(String, Option<Vec<Entry>>)>)
        requires
            findings(found@).map_values(|f: (Seq<char>, Option<Seq<Entry>>)| f.0) == old(self)@.open,
        ensures
            final(self)@.root == old(self)@.root,
            final(self)@.filter == old(self)@.filter,
            final(self)@.open == still_open(findings(found@)),
            final(self)@.listings == relisted(findings(found@)),
    {
        proof {
            use_type_invariant(&*self);
        }
        let ghost open = self@.open;
        let ghost fs = findings(found@);
        let mut expanded: Vec<String> = Vec::new();
        let mut children: Vec<(String, Vec<Entry>)> = Vec::new();
        let mut k: usize = 0;
        assert(fs.take(0) =~= Seq::<(Seq<char>, Option<Seq<Entry>>)>::empty());
        assert(expanded@.map_values(|p: String| p@) =~= Seq::<Seq<char>>::empty());
        assert(children@.map_values(|c: (String, Vec<Entry>)| (c.0@, c.1@)) =~= Seq::<(Seq<char>, Seq<Entry>)>::empty());
        let mut found = found;
        let ghost whole = found@;
        assert(found@ =~= whole.skip(0));
        let total = found.len();
        while k < total
            invariant
                total == whole.len(),
                k <= whole.len(),
                fs == findings(whole),
                open == fs.map_values(|f: (Seq<char>, Option<Seq<Entry>>)| f.0),
                in_path_order(open),
                found@ == whole.skip(k as int),
                expanded@.map_values(|p: String| p@) == still_open(fs.take(k as int)),
                children@.map_values(|c: (String, Vec<Entry>)| (c.0@, c.1@)) == relisted(fs.take(k as int)),
                in_path_order(expanded@.map_values(|p: String| p@)),
                crate::diff::texts(expanded@) == expanded@.map_values(|p: String| p@),
                forall|i: int, m: int|
                    0 <= i < expanded@.len() && k <= m < open.len() ==> path_before(
                        #[trigger] crate::diff::texts(expanded@)[i],
                        #[trigger] open[m],
                    ),
            decreases total - k,
        {
            assert(fs.take(k + 1).drop_last() =~= fs.take(k as int));
            assert(found@[0] == whole[k as int]);
            let item = found.remove(0);
            assert(found@ =~= whole.skip(k + 1));
            assert(fs[k as int].0 == open[k as int]);
            let ghost ev = expanded@.map_values(|p: String| p@);
            let ghost cv = children@.map_values(|c: (String, Vec<Entry>)| (c.0@, c.1@));
            let (path, listing) = item;
            match listing {
                Some(entries) => {
                    expanded.push(path.clone());
                    children.push((path, entries));
                    assert(expanded@.map_values(|p: String| p@) =~= ev.push(open[k as int]));
                    assert(children@.map_values(|c: (String, Vec<Entry>)| (c.0@, c.1@)) =~= cv.push((fs[k as int].0, fs[k as int].1.unwrap())));
                    proof {
                        let now = expanded@.map_values(|p: String| p@);
                        assert(crate::diff::texts(expanded@) =~= now);
                        assert forall|i: int, m: int| 0 <= i < now.len() && k + 1 <= m < open.len() implies path_before(
                            #[trigger] now[i],
                            #[trigger] open[m],
                        ) by {
                            if i < ev.len() {
                                assert(now[i] == ev[i]);
                            } else {
                                assert(now[i] == open[k as int]);
                            }
                        }
                        assert forall|i: int, j: int| 0 <= i < j < now.len() implies path_before(#[trigger] now[i], #[trigger] now[j]) by {
                            if j < ev.len() {
                                assert(now[i] == ev[i] && now[j] == ev[j]);
                            } else {
                                assert(now[i] == ev[i] && now[j] == open[k as int]);
                            }
                        }
                    }
                },
                None => {
                    proof {
                        assert forall|i: int, m: int| 0 <= i < ev.len() && k + 1 <= m < open.len() implies path_before(
                            #[trigger] ev[i],
                            #[trigger] open[m],
                        ) by {}
                    }
                },
            }
            k = k + 1;
        }
        assert(fs.take(whole.len() as int) =~= fs);
        self.expanded = expanded;
        self.children = children;
    }

    /// The directories to open, in order, to show `path`: the root, then each directory on the
    /// way down to it. Nothing for a path outside the root.
    ///
    /// Opening them is the caller's part, each with [`Tree::expand`]; that is what "reveal the
    /// current file" is.
    fn reveal_path_at(&self, path: &str) -> (out: Vec<String>)
        ensures
            out@.map_values(|p: String| p@) == reveal_steps(self@.root, path@),
    {
        let p = chars_of(path);
        let r = chars_of(self.root.as_str());
        let mut i: usize = 0;
        if r.len() > p.len() {
            return Vec::new();
        }
        while i < r.len()
            invariant
                i <= r@.len() <= p@.len(),
                p@ == path@,
                r@ == self@.root,
                forall|j: int| 0 <= j < i ==> p@[j] == r@[j],
            decreases r.len() - i,
        {
            if p[i] != r[i] {
                assert(p@.take(r@.len() as int)[i as int] != r@[i as int]);
                return Vec::new();
            }
            i = i + 1;
        }
        assert(p@.take(r@.len() as int) =~= r@);
        let n = r.len();
        if !(p.len() == n || (n > 0 && r[n - 1] == '/') || p[n] == '/') {
            return Vec::new();
        }
        let mut rest: Vec<char> = Vec::new();
        let mut k = n;
        while k < p.len()
            invariant
                n <= k <= p@.len(),
                rest@ == p@.subrange(n as int, k as int),
            decreases p.len() - k,
        {
            rest.push(p[k]);
            assert(rest@ =~= p@.subrange(n as int, k + 1));
            k = k + 1;
        }
        assert(rest@ =~= path@.skip(self@.root.len() as int));
        let comps = crate::names::parts_of(string_of(rest.as_slice()).as_str());
        let ghost cv = comps@.map_values(|c: Vec<char>| c@);
        let count = if comps.len() == 0 { 1 } else { comps.len() };
        let mut out: Vec<String> = Vec::new();
        let mut walk = self.root.clone();
        let mut j: usize = 0;
        while j < count
            invariant
                j <= count,
                count == if cv.len() == 0 { 1 } else { cv.len() },
                cv == comps@.map_values(|c: Vec<char>| c@),
                cv.len() == comps@.len(),
                j < count ==> walk@ == walk_to(self@.root, cv.take(j as int)),
                out@.len() == j,
                forall|m: int| 0 <= m < j ==> #[trigger] out@[m]@ == walk_to(self@.root, cv.take(m)),
            decreases count - j,
        {
            out.push(walk.clone());
            if j + 1 < count {
                let next = crate::names::join(walk.as_str(), string_of(comps[j].as_slice()).as_str());
                assert(cv.take(j + 1).drop_last() =~= cv.take(j as int));
                assert(cv.take(j + 1).last() == comps@[j as int]@);
                walk = next;
            }
            j = j + 1;
        }
        assert(out@.map_values(|p: String| p@) =~= reveal_steps(self@.root, path@));
        out
    }

    /// The rows under `dir` at `depth`, appended to `into`.
    fn collect(&self, dir: &String, depth: usize, into: &mut Vec<Row>)
        ensures
            final(into)@ == old(into)@ + rows_in(self@, dir@, depth as int),
        decreases self@.listings.len() - depth + 1, 0int,
    {
        if depth >= self.children.len() {
            assert(final(into)@ =~= old(into)@ + rows_in(self@, dir@, depth as int));
            return;
        }
        let at = match self.listing_index(dir) {
            Some(at) => at,
            None => {
                assert(final(into)@ =~= old(into)@ + rows_in(self@, dir@, depth as int));
                return;
            },
        };
        let entries = &self.children[at].1;
        self.collect_entries(entries, 0, depth, into);
        assert(entries@.skip(0) =~= entries@);
    }

    /// The rows for `entries` from `from` on, at `depth`, appended to `into`.
    fn collect_entries(&self, entries: &Vec<Entry>, from: usize, depth: usize, into: &mut Vec<Row>)
        requires
            from <= entries@.len(),
            depth < self@.listings.len(),
        ensures
            final(into)@ == old(into)@ + rows_of(self@, entries@.skip(from as int), depth as int),
        decreases self@.listings.len() - depth, entries@.len() - from,
    {
        if from == entries.len() {
            assert(entries@.skip(from as int) =~= Seq::<Entry>::empty());
            assert(final(into)@ =~= old(into)@ + rows_of(self@, entries@.skip(from as int), depth as int));
            return;
        }
        let ghost rest = entries@.skip(from as int);
        let e = &entries[from];
        assert(rest[0] == *e);
        assert(rest.skip(1) =~= entries@.skip(from + 1));
        let open = e.directory && self.is_expanded_at(e.path.as_str());
        let ghost start = into@;
        into.push(Row { entry: e.copy(), depth, expanded: open });
        if open {
            let count = self.children.len();
            assert(self@.listings.len() == count);
            self.collect(&e.path, depth + 1, into);
        }
        let ghost middle = into@;
        self.collect_entries(entries, from + 1, depth, into);
        assert(final(into)@ =~= old(into)@ + rows_of(self@, entries@.skip(from as int), depth as int));
    }

    /// Every row, in the order they are drawn.
    pub fn rows(&self) -> (out: Vec<Row>)
        ensures
            out@ == rows_in(self@, self@.root, 0),
    {
        let mut rows: Vec<Row> = Vec::new();
        self.collect(&self.root, 0, &mut rows);
        assert(rows@ =~= rows_in(self@, self@.root, 0));
        rows
    }

    /// Where `path` is in the drawn list, when it is in it.
    pub fn index_of(&self, path: &str) -> (out: Option<usize>)
        ensures
            match out {
                Some(k) => k < rows_in(self@, self@.root, 0).len() && normal(rows_in(self@, self@.root, 0)[k as int].entry.path@)
                    == normal(path@) && forall|j: int|
                    0 <= j < k ==> normal(rows_in(self@, self@.root, 0)[j].entry.path@) != normal(path@),
                None => forall|j: int|
                    0 <= j < rows_in(self@, self@.root, 0).len() ==> normal(rows_in(self@, self@.root, 0)[j].entry.path@)
                        != normal(path@),
            },
    {
        let rows = self.rows();
        let p = crate::names::normalize(path);
        let mut i: usize = 0;
        while i < rows.len()
            invariant
                i <= rows@.len(),
                rows@ == rows_in(self@, self@.root, 0),
                p@ == normal(path@),
                forall|j: int| 0 <= j < i ==> normal(rows@[j].entry.path@) != normal(path@),
            decreases rows.len() - i,
        {
            let here = crate::names::normalize(rows[i].entry.path.as_str());
            if same(&here, &p) {
                return Some(i);
            }
            i = i + 1;
        }
        None
    }

    /// Opens each of `items`, in the order given: each a path, whether it is a directory still,
    /// and what it holds.
    pub fn restore_expanded(&mut self, items: Vec<(String, bool, Vec<Entry>)>)
        ensures
            final(self)@.root == old(self)@.root,
            final(self)@.filter == old(self)@.filter,
            final(self)@.open.to_set() == old(self)@.open.to_set().union(
                opened_dirs(items@.map_values(|i: (String, bool, Vec<Entry>)| (i.0@, i.1, i.2@))),
            ),
            final(self)@.listings == listings_after(
                old(self)@.listings,
                items@.map_values(|i: (String, bool, Vec<Entry>)| (i.0@, i.1, i.2@)),
            ),
    {
        let ghost iv = items@.map_values(|i: (String, bool, Vec<Entry>)| (i.0@, i.1, i.2@));
        let ghost start = self@;
        let mut items = items;
        let ghost whole = items@;
        assert(items@ =~= whole.skip(0));
        let mut k: usize = 0;
        let n = items.len();
        assert(iv.take(0) =~= Seq::<(Seq<char>, bool, Seq<Entry>)>::empty());
        assert(opened_dirs(iv.take(0)) =~= Set::<Seq<char>>::empty());
        assert(start.open.to_set().union(Set::<Seq<char>>::empty()) =~= start.open.to_set());
        while k < n
            invariant
                k <= n,
                n == iv.len(),
                iv == whole.map_values(|i: (String, bool, Vec<Entry>)| (i.0@, i.1, i.2@)),
                items@ == whole.skip(k as int),
                self@.root == start.root,
                self@.filter == start.filter,
                self@.open.to_set() == start.open.to_set().union(opened_dirs(iv.take(k as int))),
                self@.listings == listings_after(start.listings, iv.take(k as int)),
            decreases n - k,
        {
            assert(items@[0] == whole[k as int]);
            let (path, is_dir, entries) = items.remove(0);
            assert(items@ =~= whole.skip(k + 1));
            assert(iv.take(k + 1).drop_last() =~= iv.take(k as int));
            assert(iv.take(k + 1).last() == iv[k as int]);
            let ghost prior = self@.open.to_set();
            self.expand_at(path.as_str(), is_dir, entries);
            proof {
                let before = opened_dirs(iv.take(k as int));
                let after = opened_dirs(iv.take(k + 1));
                assert forall|p: Seq<char>| after.contains(p) <==> before.contains(p) || (p == iv[k as int].0 && iv[k as int].1) by {
                    if after.contains(p) {
                        let m = choose|m: int| 0 <= m < iv.take(k + 1).len() && #[trigger] iv.take(k + 1)[m].0 == p && iv.take(k + 1)[m].1;
                        if m < k {
                            assert(iv.take(k as int)[m] == iv.take(k + 1)[m]);
                        }
                    }
                    if before.contains(p) {
                        let m = choose|m: int| 0 <= m < iv.take(k as int).len() && #[trigger] iv.take(k as int)[m].0 == p && iv.take(k as int)[m].1;
                        assert(iv.take(k + 1)[m] == iv.take(k as int)[m]);
                    }
                    if p == iv[k as int].0 && iv[k as int].1 {
                        assert(iv.take(k + 1)[k as int] == iv[k as int]);
                    }
                }
                if is_dir {
                    assert(self@.open.to_set() =~= start.open.to_set().union(after));
                } else {
                    assert(self@.open.to_set() =~= start.open.to_set().union(after));
                }
            }
            k = k + 1;
        }
        assert(iv.take(n as int) =~= iv);
    }
}

impl Tree {
    /// A tree over `root`, with nothing open yet.
    ///
    /// Paths are the same path when their components are: `root`, and every path handed to the
    /// tree, is taken written the one way each path is (see `normal`).
    pub fn new(root: &str, filter: Filter) -> (out: Tree)
        ensures
            out@.root == normal(root@),
            out@.filter == filter,
            out@.open == Seq::<Seq<char>>::empty(),
            out@.listings == Seq::<(Seq<char>, Seq<Entry>)>::empty(),
    {
        let root = crate::names::normalize(root);
        Tree::new_at(root.as_str(), filter)
    }

    /// Whether `path` is a directory, as the rows that have been read say: the root is one, and
    /// so is an entry read as a directory in the listing of the directory it is in. Paths are
    /// compared component for component.
    pub fn is_directory(&self, path: &str) -> (out: bool)
        ensures
            out == (normal(path@) == self@.root || match parent(normal(path@)) {
                Some(up) => match listing_of(self@.listings, up) {
                    Some(entries) => exists|k: int|
                        0 <= k < entries.len() && normal(entries[k].path@) == normal(path@) && entries[k].directory,
                    None => false,
                },
                None => false,
            }),
    {
        let path = crate::names::normalize(path);
        self.is_directory_at(path.as_str())
    }

    /// Whether `path` is an open directory.
    pub fn is_expanded(&self, path: &str) -> (out: bool)
        ensures
            out == self@.open.contains(normal(path@)),
    {
        let path = crate::names::normalize(path);
        self.is_expanded_at(path.as_str())
    }

    /// Opens `path`, keeping `entries` as what it holds unless it was read already.
    pub fn expand(&mut self, path: &str, is_dir: bool, entries: Vec<Entry>)
        ensures
            opened(old(self)@, final(self)@, normal(path@), is_dir, entries@),
    {
        let path = crate::names::normalize(path);
        self.expand_at(path.as_str(), is_dir, entries);
    }

    /// Closes `path`. What was read stays read.
    pub fn collapse(&mut self, path: &str)
        ensures
            closed(old(self)@, final(self)@, normal(path@)),
    {
        let path = crate::names::normalize(path);
        self.collapse_at(path.as_str());
    }

    /// Opens it if it is closed and closes it if it is open.
    pub fn toggle(&mut self, path: &str, is_dir: bool, entries: Vec<Entry>)
        ensures
            toggled(old(self)@, final(self)@, normal(path@), is_dir, entries@),
    {
        let path = crate::names::normalize(path);
        self.toggle_at(path.as_str(), is_dir, entries);
    }

    /// The directories to open, outermost first, so that `path` can be shown.
    pub fn reveal_path(&self, path: &str) -> (out: Vec<String>)
        ensures
            out@.map_values(|p: String| p@) == reveal_steps(self@.root, normal(path@)),
    {
        let path = crate::names::normalize(path);
        self.reveal_path_at(path.as_str())
    }
}

} // verus!
