//! Where the editor keeps what it worked out for itself.
//!
//! Separate from the configuration on purpose. Configuration is what a person writes; state is
//! what the editor writes about them: which files they had open, where the caret was, what the
//! splits looked like. Writing the files is the caller's part.

use vstd::prelude::*;

use crate::names::{extension, extension_of, file_name, file_name_of, join, joined_path};
use crate::text::same_text;
use crate::text::owned;
use crate::config::path_view;

verus! {

/// The platform's state directory, which only Linux answers.
///
/// Calls `dirs::state_dir`, which reads the environment; nothing is stated of what it answers.
#[verifier::external_body]
fn state_dir() -> Option<String> {
    dirs::state_dir().map(|base| base.to_string_lossy().into_owned())
}

/// The platform's local data directory.
///
/// Calls `dirs::data_local_dir`, which reads the environment; nothing is stated of what it
/// answers.
#[verifier::external_body]
fn data_local_dir() -> Option<String> {
    dirs::data_local_dir().map(|base| base.to_string_lossy().into_owned())
}

/// Where state lives, given what `$ZDT_STATE_DIR` holds, the platform's state directory and its
/// local data directory: the variable when it is set, else `zdt` under the state directory, or
/// else under the local data directory.
pub fn directory_from(named: Option<String>, state: Option<String>, local: Option<String>) -> (out: Option<String>)
    ensures
        path_view(out) == match named {
            Some(n) => Some(n@),
            None => match state {
                Some(b) => Some(joined_path(b@, "zdt"@)),
                None => match local {
                    Some(b) => Some(joined_path(b@, "zdt"@)),
                    None => None,
                },
            },
        },
        named is Some ==> out == named,
{
    match named {
        Some(named) => Some(named),
        None => {
            let base = match state {
                Some(base) => Some(base),
                None => local,
            };
            match base {
                Some(base) => Some(join(base.as_str(), "zdt")),
                None => None,
            }
        },
    }
}

/// Where state lives, given what `$ZDT_STATE_DIR` holds: that when it is set, else `zdt` under
/// the platform's state directory, or else under its local data directory.
pub fn directory(named: Option<String>) -> (out: Option<String>)
    ensures
        named is Some ==> out == named,
        named is None ==> match out {
            Some(d) => exists|base: Seq<char>| d@ == joined_path(base, "zdt"@),
            None => true,
        },
{
    if named.is_some() {
        return directory_from(named, None, None);
    }
    let state = state_dir();
    if state.is_some() {
        return directory_from(named, state, None);
    }
    directory_from(named, None, data_local_dir())
}

/// The paths inside one state directory.
#[derive(Clone, Debug)]
pub struct State {
    /// The directory itself.
    pub root: String,
}

impl State {
    /// The paths under `root`.
    pub fn at(root: &str) -> (out: State)
        ensures
            out.root@ == root@,
    {
        State { root: owned(root) }
    }

    /// The paths under the state directory, given what `$ZDT_STATE_DIR` holds.
    pub fn discover(named: Option<String>) -> (out: Option<State>)
        ensures
            named is Some ==> out is Some && out.unwrap().root@ == named.unwrap()@,
    {
        match directory(named) {
            Some(root) => Some(State { root }),
            None => None,
        }
    }

    /// Where the sessions are.
    pub fn sessions(&self) -> (out: String)
        ensures
            out@ == joined_path(self.root@, "sessions"@),
    {
        join(self.root.as_str(), "sessions")
    }

    /// Where the agent daemon keeps its database and its logs.
    pub fn agent(&self) -> (out: String)
        ensures
            out@ == joined_path(self.root@, "agent"@),
    {
        join(self.root.as_str(), "agent")
    }
}

/// What went wrong writing state.
#[derive(Clone, Debug)]
pub enum StateError {
    /// The file could not be written or read.
    Io {
        /// Which file.
        path: String,
        /// What the system said.
        message: String,
    },
    /// There is nowhere to keep state.
    Nowhere,
    /// The bytes are not what was expected.
    Malformed {
        /// Which file.
        path: String,
        /// What was wrong with it.
        reason: String,
    },
}

/// Where the FNV-1a hash starts.
pub const FNV_OFFSET: u64 = 0xcbf2_9ce4_8422_2325u64;

/// What the FNV-1a hash multiplies by.
pub const FNV_PRIME: u64 = 0x0000_0100_0000_01b3u64;

/// The FNV-1a hash of `bytes`: start at the offset, and for each byte, mix it in and multiply,
/// wrapping at 64 bits.
pub open spec fn fnv1a(bytes: Seq<u8>) -> u64
    decreases bytes.len(),
{
    if bytes.len() == 0 {
        FNV_OFFSET
    } else {
        (((fnv1a(bytes.drop_last()) ^ (bytes.last() as u64)) as nat * FNV_PRIME as nat) % 0x1_0000_0000_0000_0000nat) as u64
    }
}

/// A hash of `bytes` that means the same thing in every version of this editor.
///
/// FNV-1a, written out here rather than taken from a crate, because a file written by one release
/// has to be readable by the next and a dependency is free to change its algorithm.
pub fn stable_hash(bytes: &[u8]) -> (out: u64)
    ensures
        out == fnv1a(bytes@),
{
    let mut hash: u64 = FNV_OFFSET;
    let mut i: usize = 0;
    while i < bytes.len()
        invariant
            i <= bytes@.len(),
            hash == fnv1a(bytes@.take(i as int)),
        decreases bytes.len() - i,
    {
        assert(bytes@.take(i + 1).drop_last() =~= bytes@.take(i as int));
        hash = hash ^ (bytes[i] as u64);
        hash = hash.wrapping_mul(FNV_PRIME);
        i = i + 1;
    }
    assert(bytes@.take(i as int) =~= bytes@);
    hash
}

/// How long a half-written file is left alone, in seconds: another editor may be part-way
/// through it.
pub const UNFINISHED_GRACE: u64 = 3600;

/// Whether a file found in the state directory is a write that never finished: a `.writing`
/// file last touched more than an hour ago. A file whose age cannot be told is left alone.
pub open spec fn unfinished(path: Seq<char>, age: Option<u64>) -> bool {
    &&& file_name(path) matches Some(name) && extension(name) == Some("writing"@)
    &&& age matches Some(seconds) && seconds > UNFINISHED_GRACE
}

/// Whether a file found in the state directory is a write that never finished, given how many
/// seconds ago it was last touched.
pub fn is_unfinished(path: &str, age: Option<u64>) -> (out: bool)
    ensures
        out == unfinished(path@, age),
{
    let stale = match age {
        Some(seconds) => seconds > UNFINISHED_GRACE,
        None => false,
    };
    if !stale {
        return false;
    }
    match file_name_of(path) {
        Some(name) => match extension_of(name.as_str()) {
            Some(held) => same_text(held.as_str(), "writing"),
            None => false,
        },
        None => false,
    }
}

} // verus!
