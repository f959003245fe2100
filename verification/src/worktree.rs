//! Worktrees: parallel checkouts of one repository, as `git worktree list --porcelain` reports
//! them, and the temporary branch a new one starts on.
//!
//! Running git is the caller's part; reading what it printed is here.

use vstd::prelude::*;

use crate::text::{begins_with, owned, push_char, push_str, str_lines, str_lines_of, string_of, strip_prefix};

verus! {

/// One worktree, as `git worktree list` reports it.
#[derive(Clone, Debug)]
pub struct Worktree {
    /// Where its checkout is.
    pub path: String,
    /// The branch checked out in it. Empty for a detached one.
    pub branch: String,
}

/// Reading the listing line by line: the worktrees finished so far, the path of the one being
/// read, and its branch.
pub open spec fn listing_walk(lines: Seq<Seq<char>>, root: Seq<char>) -> (Seq<(Seq<char>, Seq<char>)>, Option<Seq<char>>, Seq<char>)
    decreases lines.len(),
{
    if lines.len() == 0 {
        (seq![], None, seq![])
    } else {
        let before = listing_walk(lines.drop_last(), root);
        let line = lines.last();
        if line.len() == 0 {
            let found = match before.1 {
                Some(done) => if done != root { before.0.push((done, before.2)) } else { before.0 },
                None => before.0,
            };
            (found, None, seq![])
        } else if begins_with(line, "worktree "@) {
            (before.0, Some(line.skip(9)), before.2)
        } else if begins_with(line, "branch refs/heads/"@) {
            (before.0, before.1, line.skip(18))
        } else {
            before
        }
    }
}

/// The worktrees a porcelain listing names, the main checkout at `root` left out: each block of
/// lines ends at an empty one, or at the end.
pub open spec fn worktrees_in(said: Seq<char>, root: Seq<char>) -> Seq<(Seq<char>, Seq<char>)> {
    listing_walk(str_lines(said).push(seq![]), root).0
}

/// Every worktree `git worktree list --porcelain` printed as `said`, the main checkout at
/// `root` excluded.
pub fn parse_list(said: &str, root: &str) -> (out: Vec<Worktree>)
    ensures
        out@.map_values(|w: Worktree| (w.path@, w.branch@)) == worktrees_in(said@, root@),
{
    proof {
        reveal_strlit("worktree ");
        reveal_strlit("branch refs/heads/");
    }
    let mut lines = str_lines_of(said);
    lines.push(Vec::new());
    let ghost lv = lines@.map_values(|l: Vec<char>| l@);
    assert(lv =~= str_lines(said@).push(seq![]));
    let mut found: Vec<Worktree> = Vec::new();
    let mut path: Option<String> = None;
    let mut branch = String::new();
    let mut i: usize = 0;
    assert(found@.map_values(|w: Worktree| (w.path@, w.branch@)) =~= listing_walk(lv.take(0), root@).0);
    while i < lines.len()
        invariant
            i <= lines@.len(),
            lv == lines@.map_values(|l: Vec<char>| l@),
            found@.map_values(|w: Worktree| (w.path@, w.branch@)) == listing_walk(lv.take(i as int), root@).0,
            match path {
                Some(p) => listing_walk(lv.take(i as int), root@).1 == Some(p@),
                None => listing_walk(lv.take(i as int), root@).1 is None,
            },
            branch@ == listing_walk(lv.take(i as int), root@).2,
        decreases lines.len() - i,
    {
        proof {
            reveal_strlit("worktree ");
            reveal_strlit("branch refs/heads/");
        }
        assert(lv.take(i + 1).drop_last() =~= lv.take(i as int));
        assert(lv.take(i + 1).last() == lines@[i as int]@);
        let line = string_of(lines[i].as_slice());
        let ghost prior = found@.map_values(|w: Worktree| (w.path@, w.branch@));
        if lines[i].len() == 0 {
            match path {
                Some(done) => {
                    if !crate::text::same_text(done.as_str(), root) {
                        found.push(Worktree { path: done, branch });
                        assert(found@.map_values(|w: Worktree| (w.path@, w.branch@)) =~= prior.push(
                            (found@.last().path@, found@.last().branch@),
                        ));
                    }
                },
                None => {},
            }
            path = None;
            branch = String::new();
        } else if let Some(spot) = strip_prefix(line.as_str(), "worktree ") {
            path = Some(spot);
        } else if let Some(name) = strip_prefix(line.as_str(), "branch refs/heads/") {
            branch = name;
        }
        i = i + 1;
    }
    assert(lv.take(lv.len() as int) =~= lv);
    found
}

/// The hexadecimal digit for `d`, which is below sixteen.
pub open spec fn hex_digit(d: u32) -> char {
    if d < 10 { ((d + 48) as u8) as char } else { ((d + 87) as u8) as char }
}

/// `x` in eight hexadecimal digits, leading zeros kept.
pub open spec fn hex8(x: u32) -> Seq<char> {
    Seq::new(8, |i: int| hex_digit((x >> (4 * (7 - i)) as u32) & 0xF))
}

/// The number a temporary branch name is made from: the clock's nanoseconds and the process id,
/// mixed, then folded to 32 bits.
pub open spec fn branch_seed(nanos: u128, process: u32) -> u32 {
    let mixed = nanos ^ ((process as u128) << 64u128);
    (mixed as u32) ^ ((mixed >> 32u128) as u32)
}

/// A temporary branch name: `zdt/` and eight hex characters, made from the clock's nanoseconds
/// since the epoch and the process id.
///
/// Given to a worktree at creation; a later pass renames it to something a person would write.
pub fn temp_branch_from(nanos: u128, process: u32) -> (out: String)
    ensures
        out@ == "zdt/"@ + hex8(branch_seed(nanos, process)),
{
    let mixed = nanos ^ ((process as u128) << 64u128);
    let x: u32 = (mixed as u32) ^ ((mixed >> 32u128) as u32);
    let mut out = String::new();
    push_str(&mut out, "zdt/");
    let ghost start = out@;
    let mut i: u32 = 0;
    while i < 8
        invariant
            i <= 8,
            x == branch_seed(nanos, process),
            start == "zdt/"@,
            out@ == start + hex8(x).take(i as int),
        decreases 8 - i,
    {
        let shift: u32 = 4 * (7 - i);
        let d: u32 = (x >> shift) & 0xF;
        assert(d < 16) by (bit_vector)
            requires
                d == (x >> shift) & 0xF,
        ;
        let c = if d < 10 { ((d + 48) as u8) as char } else { ((d + 87) as u8) as char };
        push_char(&mut out, c);
        assert(hex8(x)[i as int] == c);
        assert(out@ =~= start + hex8(x).take(i + 1));
        i = i + 1;
    }
    assert(hex8(x).take(8) =~= hex8(x));
    out
}

} // verus!
