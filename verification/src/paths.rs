//! Choosing a name that is not taken, for a paste into the directory a file is already in.
//!
//! ` copy`, ` copy 2` and so on go before the extension. Asking the file system whether a name is
//! taken is the caller's part: it asks about each candidate in turn, and [`free_name`] says what
//! to do with the answer.

use vstd::prelude::*;

use crate::names::{extension, extension_of, file_name, file_name_of, joined_path, parent, parent_of, stem, stem_of};
use crate::text::{decimal, owned, push_char, push_decimal, push_str};

verus! {

/// The name the `attempt`th copy of `path` is given: `path` itself for none, else the stem, ` copy`
/// and, from the second on, its number, then the extension, in the same directory.
pub open spec fn copy_name(path: Seq<char>, attempt: nat) -> Seq<char> {
    if attempt == 0 {
        path
    } else {
        let dir = match parent(path) {
            Some(up) => up,
            None => seq!['.'],
        };
        let name = match file_name(path) {
            Some(n) => n,
            None => seq![],
        };
        let base = match file_name(path) {
            Some(n) => stem(n),
            None => seq![],
        };
        let suffix = if attempt == 1 { " copy"@ } else { " copy "@ + decimal(attempt) };
        let tail = match extension(name) {
            Some(e) if file_name(path) is Some => seq!['.'] + e,
            _ => seq![],
        };
        joined_path(dir, base + suffix + tail)
    }
}

/// The name the `attempt`th copy of `path` is given.
pub fn candidate(path: &str, attempt: u32) -> (out: String)
    ensures
        out@ == copy_name(path@, attempt as nat),
{
    proof {
        reveal_strlit(".");
    }
    if attempt == 0 {
        return owned(path);
    }
    let dir = match parent_of(path) {
        Some(up) => up,
        None => owned("."),
    };
    let (base, tail) = match file_name_of(path) {
        Some(n) => {
            let base = stem_of(n.as_str());
            let mut tail = String::new();
            match extension_of(n.as_str()) {
                Some(e) => {
                    push_char(&mut tail, '.');
                    push_str(&mut tail, e.as_str());
                },
                None => {},
            }
            (base, tail)
        },
        None => (String::new(), String::new()),
    };
    let mut name = base;
    push_str(&mut name, " copy");
    if attempt > 1 {
        push_char(&mut name, ' ');
        push_decimal(&mut name, attempt as u64);
    }
    push_str(&mut name, tail.as_str());
    proof {
        reveal_strlit(" copy");
        reveal_strlit(" copy ");
        assert(" copy "@ =~= " copy"@.push(' '));
    }
    let out = crate::names::join(dir.as_str(), name.as_str());
    assert(out@ =~= copy_name(path@, attempt as nat));
    out
}

/// What to do after asking whether a candidate name is taken.
#[derive(Clone, Debug)]
pub enum NameStep {
    /// Use this name.
    Take(String),
    /// Ask about this attempt next.
    Try(u32),
    /// Every candidate was taken: there is no name to give, and nothing should be written.
    NoneLeft,
}

/// How many attempts are made before giving up.
pub const ATTEMPTS: u32 = 1000;

/// What to do now that the `attempt`th candidate for `path` was found to be `taken` or not: take
/// it when it is free, else try the next, and after the last one say that no name is left.
///
/// Starting at attempt zero, which is `path` itself, a name this answers is one that is not
/// taken: `path` when it is free, else ` copy`, ` copy 2` and so on. A name found taken is never
/// answered.
pub fn free_name(path: &str, attempt: u32, taken: bool) -> (out: NameStep)
    requires
        attempt < ATTEMPTS,
    ensures
        !taken ==> (out matches NameStep::Take(name) && name@ == copy_name(path@, attempt as nat)),
        taken && attempt + 1 < ATTEMPTS ==> (out matches NameStep::Try(next) && next == attempt + 1),
        taken && attempt + 1 == ATTEMPTS ==> out is NoneLeft,
        out is Take ==> !taken,
{
    if !taken {
        NameStep::Take(candidate(path, attempt))
    } else if attempt + 1 < ATTEMPTS {
        NameStep::Try(attempt + 1)
    } else {
        NameStep::NoneLeft
    }
}

} // verus!
