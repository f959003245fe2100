//! Naming a copy anew.
//!
//! A paste, and a stamp out of a library, put fresh copies of elements into a drawing. Each copy
//! takes a new name, and what the copy says of other elements (the box its words sit in, the
//! frame it is in, the shapes an arrow is bound to, the words bound to a shape) is pointed at
//! the copies too. What points at an element that was not copied is let go: a binding comes
//! across unbound, and a bound entry is dropped.
//!
//! An element is read out of its JSON into `References`, which holds only the fields a renaming
//! reads; what the renaming writes back comes out as a `Rewrite`.

use vstd::prelude::*;

use crate::text::{owned, push_str};

verus! {

/// Old names to new ones: rustc-hash's map, held whole.
#[verifier::external_body]
pub struct Renames {
    map: rustc_hash::FxHashMap<String, String>,
}

/// What a set of renames holds: each old name, and the name it becomes.
pub uninterp spec fn renames_contents(renames: Renames) -> Map<Seq<char>, Seq<char>>;

/// No renames at all.
///
/// Calls `FxHashMap::default`, which holds nothing.
#[verifier::external_body]
fn renames_empty() -> (out: Renames)
    ensures
        forall|id: Seq<char>| !renames_contents(out).dom().contains(id),
{
    Renames { map: rustc_hash::FxHashMap::default() }
}

/// Files `to` as the new name of `from`.
///
/// Calls `HashMap::insert`, which keys a `String` by its text and replaces what the key held.
#[verifier::external_body]
fn renames_insert(renames: &mut Renames, from: String, to: String)
    ensures
        renames_contents(*final(renames)) == renames_contents(*old(renames)).insert(from@, to@),
{
    renames.map.insert(from, to);
}

/// The new name of `id`, when it has one.
///
/// Calls `HashMap::get`, which finds a `String` key by its text, and copies the name found.
#[verifier::external_body]
fn renames_get(renames: &Renames, id: &str) -> (out: Option<String>)
    ensures
        renames_contents(*renames).dom().contains(id@) ==> out is Some && out.unwrap()@ == renames_contents(*renames)[id@],
        !renames_contents(*renames).dom().contains(id@) ==> out is None,
{
    renames.map.get(id).cloned()
}

impl Renames {
    /// No renames at all.
    pub fn new() -> (out: Renames)
        ensures
            forall|id: Seq<char>| !renames_contents(out).dom().contains(id),
    {
        renames_empty()
    }

    /// Files `to` as the new name of `from`, in place of any it had.
    pub fn insert(&mut self, from: String, to: String)
        ensures
            renames_contents(*final(self)) == renames_contents(*old(self)).insert(from@, to@),
    {
        renames_insert(self, from, to);
    }

    /// The new name of `id`, when it has one.
    pub fn get(&self, id: &str) -> (out: Option<String>)
        ensures
            renames_contents(*self).dom().contains(id@) ==> out is Some && out.unwrap()@ == renames_contents(*self)[id@],
            !renames_contents(*self).dom().contains(id@) ==> out is None,
    {
        renames_get(self, id)
    }
}

/// What one element says of other elements, as far as a renaming reads it.
#[derive(Clone, Debug)]
pub struct References {
    /// `containerId`, where it is text.
    pub container_id: Option<String>,
    /// `frameId`, where it is text.
    pub frame_id: Option<String>,
    /// `startBinding`, where it is an object: its `elementId`, where that is text.
    pub start_binding: Option<Option<String>>,
    /// `endBinding`, the same.
    pub end_binding: Option<Option<String>>,
    /// `boundElements`, where it is a list: for each entry, its `id` where the entry is an object
    /// and the `id` is text.
    pub bound_elements: Option<Vec<Option<String>>>,
    /// `groupIds`, where it is a list: each entry, where it is text.
    pub group_ids: Option<Vec<Option<String>>>,
}

/// What a renaming writes back into an element. `None` leaves a field as it was.
#[derive(Clone, Debug)]
pub struct Rewrite {
    /// The new `containerId`.
    pub container_id: Option<String>,
    /// The new `frameId`.
    pub frame_id: Option<String>,
    /// The new `startBinding`: `Some(name)` keeps the binding with its `elementId` renamed,
    /// `None` makes the field null.
    pub start_binding: Option<Option<String>>,
    /// The new `endBinding`, the same.
    pub end_binding: Option<Option<String>>,
    /// The new `boundElements`: the entries kept, each as its place in the old list and its new
    /// `id`, in order.
    pub bound_elements: Option<Vec<(usize, String)>>,
    /// The new `groupIds`.
    pub group_ids: Option<Vec<String>>,
}

/// The view of a name that may be missing.
pub open spec fn name_view(name: Option<String>) -> Option<Seq<char>> {
    match name {
        Some(s) => Some(s@),
        None => None,
    }
}

/// The new name of `name`, where it is a name and has a new one.
pub open spec fn renamed_name(m: Map<Seq<char>, Seq<char>>, name: Option<Seq<char>>) -> Option<Seq<char>> {
    match name {
        Some(s) => if m.dom().contains(s) { Some(m[s]) } else { None },
        None => None,
    }
}

/// The entries of a bound list that are kept, among its first `n`: each as its place and its
/// new name, in order.
pub open spec fn kept_bound(m: Map<Seq<char>, Seq<char>>, entries: Seq<Option<Seq<char>>>, n: int) -> Seq<(int, Seq<char>)>
    decreases n,
{
    if n <= 0 {
        Seq::empty()
    } else {
        let before = kept_bound(m, entries, n - 1);
        match renamed_name(m, entries[n - 1]) {
            Some(to) => before.push((n - 1, to)),
            None => before,
        }
    }
}

/// Each group name of a list that is text, with `-pasted` after it, in order, among its first `n`.
pub open spec fn pasted_groups(groups: Seq<Option<Seq<char>>>, n: int) -> Seq<Seq<char>>
    decreases n,
{
    if n <= 0 {
        Seq::empty()
    } else {
        let before = pasted_groups(groups, n - 1);
        match groups[n - 1] {
            Some(g) => before.push(g + "-pasted"@),
            None => before,
        }
    }
}

/// The views of a list of names that may be missing.
pub open spec fn names_view(names: Seq<Option<String>>) -> Seq<Option<Seq<char>>> {
    names.map_values(|n: Option<String>| name_view(n))
}

/// The view of kept entries.
pub open spec fn kept_view(kept: Seq<(usize, String)>) -> Seq<(int, Seq<char>)> {
    kept.map_values(|k: (usize, String)| (k.0 as int, k.1@))
}

/// The new name of `name`, looked up in `renames`.
fn rename_one(name: &Option<String>, renames: &Renames) -> (out: Option<String>)
    ensures
        name_view(out) == renamed_name(renames_contents(*renames), name_view(*name)),
{
    match name {
        Some(s) => renames.get(s.as_str()),
        None => None,
    }
}

/// A binding renamed: kept with its element renamed, or let go when its element has no new name.
fn rename_binding(binding: &Option<Option<String>>, renames: &Renames) -> (out: Option<Option<String>>)
    ensures
        out is Some <==> binding is Some,
        out matches Some(to) ==> name_view(to) == renamed_name(renames_contents(*renames), name_view(binding.unwrap())),
{
    match binding {
        Some(element) => Some(rename_one(element, renames)),
        None => None,
    }
}

/// The entries of a bound list that point at something copied, renamed.
fn rename_bound(entries: &Vec<Option<String>>, renames: &Renames) -> (out: Vec<(usize, String)>)
    ensures
        kept_view(out@) == kept_bound(renames_contents(*renames), names_view(entries@), entries@.len() as int),
{
    let ghost m = renames_contents(*renames);
    let mut kept: Vec<(usize, String)> = Vec::new();
    let mut i: usize = 0;
    while i < entries.len()
        invariant
            i <= entries@.len(),
            m == renames_contents(*renames),
            kept_view(kept@) == kept_bound(m, names_view(entries@), i as int),
        decreases entries.len() - i,
    {
        let ghost before = kept@;
        let to = rename_one(&entries[i], renames);
        assert(names_view(entries@)[i as int] == name_view(entries@[i as int]));
        if let Some(to) = to {
            kept.push((i, to));
            assert(kept_view(kept@) =~= kept_view(before).push((i as int, to@)));
        }
        i = i + 1;
    }
    kept
}

/// Every group name of a list that is text, made new by `-pasted` after it.
fn paste_groups(groups: &Vec<Option<String>>) -> (out: Vec<String>)
    ensures
        out@.map_values(|g: String| g@) == pasted_groups(names_view(groups@), groups@.len() as int),
{
    let mut names: Vec<String> = Vec::new();
    let mut i: usize = 0;
    while i < groups.len()
        invariant
            i <= groups@.len(),
            names@.map_values(|g: String| g@) == pasted_groups(names_view(groups@), i as int),
        decreases groups.len() - i,
    {
        let ghost before = names@;
        assert(names_view(groups@)[i as int] == name_view(groups@[i as int]));
        if let Some(g) = &groups[i] {
            let mut name = owned(g.as_str());
            push_str(&mut name, "-pasted");
            names.push(name);
            assert(names@.map_values(|g: String| g@) =~= before.map_values(|g: String| g@).push(g@ + "-pasted"@));
        }
        i = i + 1;
    }
    names
}

/// The fields every renaming writes, group names left out: the element's container and frame
/// when they were copied, its bindings kept when what they are bound to was copied and let go
/// when it was not, and the bound entries that point at something copied.
pub open spec fn bindings_renamed(m: Map<Seq<char>, Seq<char>>, refs: References, out: Rewrite) -> bool {
    &&& name_view(out.container_id) == renamed_name(m, name_view(refs.container_id))
    &&& name_view(out.frame_id) == renamed_name(m, name_view(refs.frame_id))
    &&& (out.start_binding is Some <==> refs.start_binding is Some)
    &&& (out.start_binding matches Some(to) ==> name_view(to) == renamed_name(m, name_view(refs.start_binding.unwrap())))
    &&& (out.end_binding is Some <==> refs.end_binding is Some)
    &&& (out.end_binding matches Some(to) ==> name_view(to) == renamed_name(m, name_view(refs.end_binding.unwrap())))
    &&& (out.bound_elements is Some <==> refs.bound_elements is Some)
    &&& (out.bound_elements matches Some(kept) ==> kept_view(kept@) == kept_bound(
        m,
        names_view(refs.bound_elements.unwrap()@),
        refs.bound_elements.unwrap()@.len() as int,
    ))
}

/// Points every name inside a stamped library item at the copy.
///
/// Group names are left as they are: a stamp sets them itself.
pub fn rename_bindings(refs: &References, renames: &Renames) -> (out: Rewrite)
    ensures
        bindings_renamed(renames_contents(*renames), *refs, out),
        out.group_ids is None,
{
    Rewrite {
        container_id: rename_one(&refs.container_id, renames),
        frame_id: rename_one(&refs.frame_id, renames),
        start_binding: rename_binding(&refs.start_binding, renames),
        end_binding: rename_binding(&refs.end_binding, renames),
        bound_elements: match &refs.bound_elements {
            Some(entries) => Some(rename_bound(entries, renames)),
            None => None,
        },
        group_ids: None,
    }
}

/// Points every name inside a paste at the copy rather than at the original.
///
/// A group that was only partly copied would tie the copy to elements that did not come, so
/// every group name in a paste is a new one.
pub fn rename_references(refs: &References, renames: &Renames) -> (out: Rewrite)
    ensures
        bindings_renamed(renames_contents(*renames), *refs, out),
        out.group_ids is Some <==> refs.group_ids is Some,
        out.group_ids matches Some(groups) ==> groups@.map_values(|g: String| g@) == pasted_groups(
            names_view(refs.group_ids.unwrap()@),
            refs.group_ids.unwrap()@.len() as int,
        ),
{
    let mut out = rename_bindings(refs, renames);
    out.group_ids = match &refs.group_ids {
        Some(groups) => Some(paste_groups(groups)),
        None => None,
    };
    out
}

} // verus!
