//! A commit as the history panel draws it.
//!
//! Walking the history is the caller's part: the object store is read a page at a time and each
//! commit handed over as one of these.

use vstd::prelude::*;

use crate::project::{trim_text, trimmed};
use crate::text::{chars_of, string_of, string_of_prefix};

verus! {

/// One commit, as the panel draws it.
#[derive(Clone, Debug)]
pub struct Commit {
    /// Its full identifier.
    pub id: String,
    /// The first seven characters of it, which is what a person reads.
    pub short: String,
    /// The first line of the message.
    pub summary: String,
    /// Everything after that, when there is anything.
    pub body: String,
    /// Who wrote it.
    pub author: String,
    /// Their address.
    pub email: String,
    /// When, in seconds since the epoch.
    pub when: i64,
    /// What it came from. Two parents is a merge, none is the first commit.
    pub parents: Vec<String>,
}

impl Commit {
    /// What the graph reads of a commit: its identifier and its parents'.
    pub open spec fn shape(self) -> (Seq<char>, Seq<Seq<char>>) {
        (self.id@, self.parents@.map_values(|p: String| p@))
    }

    /// Whether it joined two histories.
    pub fn is_merge(&self) -> (out: bool)
        ensures
            out == (self.parents@.len() > 1),
    {
        self.parents.len() > 1
    }
}

/// The first seven characters of an identifier, or all of it when it is shorter.
pub open spec fn short_of(id: Seq<char>) -> Seq<char> {
    id.take(if id.len() < 7 { id.len() as int } else { 7 })
}

/// A message's body as the panel shows it: without white space at either end, and nothing at
/// all when there is none or it is only white space.
pub open spec fn body_of(body: Option<Seq<char>>) -> Seq<char> {
    match body {
        Some(b) => trimmed(b),
        None => seq![],
    }
}

impl Commit {
    /// A commit as the panel draws it, from what the object store says of it: its identifier,
    /// the first line of its message, the rest of the message when there is any, who wrote it
    /// and when, and its parents.
    pub fn from_parts(
        id: String,
        summary: String,
        body: Option<String>,
        author: String,
        email: String,
        when: i64,
        parents: Vec<String>,
    ) -> (out: Commit)
        ensures
            out.id@ == id@,
            out.short@ == short_of(id@),
            out.summary@ == summary@,
            out.body@ == body_of(match body {
                Some(b) => Some(b@),
                None => None,
            }),
            out.author@ == author@,
            out.email@ == email@,
            out.when == when,
            out.parents@ == parents@,
    {
        let cs = chars_of(id.as_str());
        let n: usize = if cs.len() < 7 { cs.len() } else { 7 };
        let short = string_of_prefix(cs.as_slice(), n);
        let body = match body {
            Some(b) => string_of(trim_text(b.as_str()).as_slice()),
            None => String::new(),
        };
        Commit { id, short, summary, body, author, email, when, parents }
    }
}

} // verus!
