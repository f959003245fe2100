//! What changed in a file, line by line.
//!
//! Three questions, all answered the same way: the working tree against the index, the index
//! against `HEAD`, and one commit against its parent. Reading the two sides is the caller's
//! business; this module takes the two texts and works out the lines.
//!
//! The answer is an edit script, a list of steps that walks both texts from the top, keeping a
//! line both have, removing one only the old text has, or adding one only the new text has. The
//! script is cut into hunks: each change with up to three unchanged lines around it, two changes
//! sharing one hunk when their surroundings touch.

use vstd::prelude::*;

use crate::text::{
    chars_of, decimal, lemma_text_order, lossy, push_decimal, push_str, split_on, string_of, string_of_prefix, text_before,
    text_less, text_of,
};

verus! {

/// How much unchanged text is shown around a change.
pub const CONTEXT: usize = 3;

/// What happened to one line.
#[derive(Clone, Copy, PartialEq, Eq, Debug, Structural)]
pub enum LineKind {
    /// It is in both, unchanged.
    Context,
    /// It is only in the new text.
    Added,
    /// It is only in the old text.
    Removed,
}

/// One line of a diff.
#[derive(Clone, Debug)]
pub struct Line {
    /// What happened to it.
    pub kind: LineKind,
    /// The text, without its newline.
    pub text: String,
    /// Which line it is in the old file, counting from one. `None` for a line that is only new.
    pub old: Option<u32>,
    /// Which line it is in the new file. `None` for a line that is only old.
    pub new: Option<u32>,
}

/// One run of changed lines, and the unchanged ones around it.
#[derive(Clone, Debug)]
pub struct DiffHunk {
    /// Where it starts in the old file, counting from one; zero when it covers none of it.
    pub old_start: u32,
    /// How many lines of the old file it covers.
    pub old_count: u32,
    /// Where it starts in the new file; zero when it covers none of it.
    pub new_start: u32,
    /// How many lines of the new file it covers.
    pub new_count: u32,
    /// The lines themselves, in the order they are drawn.
    pub lines: Vec<Line>,
}

/// One step of an edit script.
#[derive(Clone, Copy, PartialEq, Eq, Debug, Structural)]
pub enum Step {
    /// A line in both, at these two places.
    Keep(usize, usize),
    /// A line only in the old text.
    Remove(usize),
    /// A line only in the new text.
    Add(usize),
}

/// The texts of a list of lines.
pub open spec fn texts(lines: Seq<String>) -> Seq<Seq<char>> {
    lines.map_values(|line: String| line@)
}

/// Pushing a line pushes its text.
pub proof fn lemma_texts_push(lines: Seq<String>, line: String)
    ensures
        texts(lines.push(line)) == texts(lines).push(line@),
{
    assert(texts(lines.push(line)) =~= texts(lines).push(line@));
}

/// How many old lines the first `k` steps of `script` walk past.
pub open spec fn olds_before(script: Seq<Step>, k: int) -> int
    decreases k,
{
    if k <= 0 {
        0
    } else {
        olds_before(script, k - 1) + if script[k - 1] is Add { 0int } else { 1int }
    }
}

/// How many new lines the first `k` steps of `script` walk past.
pub open spec fn news_before(script: Seq<Step>, k: int) -> int
    decreases k,
{
    if k <= 0 {
        0
    } else {
        news_before(script, k - 1) + if script[k - 1] is Remove { 0int } else { 1int }
    }
}

/// Whether step `k` of `script` is the step that walks on from where the steps before it left
/// both texts.
pub open spec fn step_fits(
    script: Seq<Step>,
    k: int,
    old: Seq<Seq<char>>,
    new: Seq<Seq<char>>,
) -> bool {
    let o = olds_before(script, k);
    let n = news_before(script, k);
    match script[k] {
        Step::Keep(a, b) => a == o && b == n && o < old.len() && n < new.len() && old[o] == new[n],
        Step::Remove(a) => a == o && o < old.len(),
        Step::Add(b) => b == n && n < new.len(),
    }
}

/// Whether every step of `script` fits, and they walk `o` old lines and `n` new ones.
pub open spec fn walks(
    script: Seq<Step>,
    old: Seq<Seq<char>>,
    new: Seq<Seq<char>>,
    o: int,
    n: int,
) -> bool {
    &&& forall|k: int| 0 <= k < script.len() ==> #[trigger] step_fits(script, k, old, new)
    &&& olds_before(script, script.len() as int) == o
    &&& news_before(script, script.len() as int) == n
}

/// Whether `script` turns `old` into `new`: every line of both is walked past, in order, and
/// every line kept is the same on both sides.
pub open spec fn is_script(script: Seq<Step>, old: Seq<Seq<char>>, new: Seq<Seq<char>>) -> bool {
    walks(script, old, new, old.len() as int, new.len() as int)
}

/// The counts of a prefix depend on nothing after it.
pub proof fn lemma_counts_prefix(s: Seq<Step>, t: Seq<Step>, k: int)
    requires
        0 <= k <= s.len(),
        s.len() <= t.len(),
        forall|i: int| 0 <= i < s.len() ==> s[i] == t[i],
    ensures
        olds_before(s, k) == olds_before(t, k),
        news_before(s, k) == news_before(t, k),
    decreases k,
{
    if k > 0 {
        lemma_counts_prefix(s, t, k - 1);
    }
}

/// The counts never go down, and go up by at most one a step.
pub proof fn lemma_counts_monotone(s: Seq<Step>, j: int, k: int)
    requires
        0 <= j <= k <= s.len(),
    ensures
        olds_before(s, j) <= olds_before(s, k) <= olds_before(s, j) + (k - j),
        news_before(s, j) <= news_before(s, k) <= news_before(s, j) + (k - j),
        olds_before(s, j) >= 0,
        news_before(s, j) >= 0,
    decreases k,
{
    if k > j {
        lemma_counts_monotone(s, j, k - 1);
    }
    lemma_counts_nonnegative(s, j);
}

/// No count is below nothing.
pub proof fn lemma_counts_nonnegative(s: Seq<Step>, j: int)
    ensures
        olds_before(s, j) >= 0,
        news_before(s, j) >= 0,
    decreases j,
{
    if j > 0 {
        lemma_counts_nonnegative(s, j - 1);
    }
}

/// Pushing a step that fits keeps the walk.
pub proof fn lemma_walk_push(
    s: Seq<Step>,
    x: Step,
    old: Seq<Seq<char>>,
    new: Seq<Seq<char>>,
    o: int,
    n: int,
)
    requires
        walks(s, old, new, o, n),
        match x {
            Step::Keep(a, b) => a == o && b == n && o < old.len() && n < new.len() && old[o]
                == new[n],
            Step::Remove(a) => a == o && o < old.len(),
            Step::Add(b) => b == n && n < new.len(),
        },
    ensures
        walks(
            s.push(x),
            old,
            new,
            o + if x is Add { 0int } else { 1int },
            n + if x is Remove { 0int } else { 1int },
        ),
{
    let t = s.push(x);
    assert forall|k: int| 0 <= k < t.len() implies #[trigger] step_fits(t, k, old, new) by {
        lemma_counts_prefix(s, t, k);
        if k < s.len() {
            assert(step_fits(s, k, old, new));
        } else {
            lemma_counts_prefix(s, t, s.len() as int);
        }
    }
    lemma_counts_prefix(s, t, s.len() as int);
}

/// Whether the first `k` lines of both texts agree, and so can be kept.
pub open spec fn common_prefix(old: Seq<Seq<char>>, new: Seq<Seq<char>>, k: int) -> bool {
    k <= old.len() && k <= new.len() && forall|i: int| 0 <= i < k ==> old[i] == new[i]
}

/// Whether the last `k` lines of both texts agree.
pub open spec fn common_suffix(old: Seq<Seq<char>>, new: Seq<Seq<char>>, k: int) -> bool {
    k <= old.len() && k <= new.len() && forall|j: int|
        old.len() - k <= j < old.len() ==> #[trigger] old[j] == new[j - old.len() + new.len()]
}

/// The edit script between two lists of lines.
///
/// A longest-common-subsequence diff, with the common prefix and suffix taken off first, and the
/// old line removed before the new one is added wherever either would keep as much. Taking the
/// prefix and suffix off is what makes it fast enough on real files. A one-line change in a two-thousand-line file leaves a
/// handful of lines for the quadratic part to work on.
pub fn myers(old: &[String], new: &[String]) -> (script: Vec<Step>)
    ensures
        is_script(script@, texts(old@), texts(new@)),
        texts(old@) == texts(new@) ==> forall|k: int| 0 <= k < script@.len() ==> script@[k] is Keep,
        (old@.len() + 1) * (new@.len() + 1) <= usize::MAX ==> kept_count(script@) == common_from(
            texts(old@),
            texts(new@),
            0,
            0,
            old@.len() as int,
            new@.len() as int,
        ),
        (old@.len() + 1) * (new@.len() + 1) <= usize::MAX ==> keeps_the_most(script@, texts(old@), texts(new@)),
        (old@.len() + 1) * (new@.len() + 1) <= usize::MAX ==> script@ == diff_script(texts(old@), texts(new@)),
{
    let ghost o_t = texts(old@);
    let ghost n_t = texts(new@);
    let mut head: usize = 0;
    while head < old.len() && head < new.len() && old[head] == new[head]
        invariant
            head <= old.len(),
            head <= new.len(),
            o_t == texts(old@),
            n_t == texts(new@),
            common_prefix(o_t, n_t, head as int),
            shared_head(o_t, n_t, 0) == shared_head(o_t, n_t, head as int),
        decreases old.len() - head,
    {
        assert(o_t[head as int] == n_t[head as int]);
        head = head + 1;
    }
    proof {
        if head < old.len() && head < new.len() {
            assert(o_t[head as int] != n_t[head as int]);
        }
        assert(shared_head(o_t, n_t, head as int) == head);
    }
    let mut tail: usize = 0;
    while tail < old.len() - head && tail < new.len() - head && old[old.len() - 1 - tail]
        == new[new.len() - 1 - tail]
        invariant
            head <= old.len(),
            head <= new.len(),
            tail <= old.len() - head,
            tail <= new.len() - head,
            o_t == texts(old@),
            n_t == texts(new@),
            common_suffix(o_t, n_t, tail as int),
            shared_tail(o_t, n_t, head as int, 0) == shared_tail(o_t, n_t, head as int, tail as int),
        decreases old.len() - tail,
    {
        assert(o_t[old.len() - 1 - tail] == n_t[new.len() - 1 - tail]);
        tail = tail + 1;
    }
    proof {
        if tail < old.len() - head && tail < new.len() - head {
            assert(o_t[old.len() - 1 - tail] != n_t[new.len() - 1 - tail]);
        }
        assert(shared_tail(o_t, n_t, head as int, tail as int) == tail);
    }

    proof {
        if o_t == n_t {
            if head < old.len() {
                assert(o_t[head as int] == n_t[head as int]);
            }
        }
    }
    let ghost oe = old@.len() as int;
    let ghost ne = new@.len() as int;
    let ghost fits = (old@.len() + 1) * (new@.len() + 1) <= usize::MAX;
    let ghost total = common_from(o_t, n_t, 0, 0, oe, ne);
    let mut script: Vec<Step> = Vec::new();
    let mut at: usize = 0;
    while at < head
        invariant
            forall|k: int| 0 <= k < script@.len() ==> script@[k] is Keep,
            oe == old@.len(),
            ne == new@.len(),
            total == common_from(o_t, n_t, 0, 0, oe, ne),
            kept_count(script@) == at,
            script@ == keep_run(0, 0, at as int),
            total == at + common_from(o_t, n_t, at as int, at as int, oe, ne),
            o_t == n_t ==> head == old.len() && head == new.len(),
            at <= head,
            head <= old.len(),
            head <= new.len(),
            o_t == texts(old@),
            n_t == texts(new@),
            common_prefix(o_t, n_t, head as int),
            walks(script@, o_t, n_t, at as int, at as int),
        decreases head - at,
    {
        proof {
            assert(o_t[at as int] == n_t[at as int]);
            lemma_walk_push(script@, Step::Keep(at, at), o_t, n_t, at as int, at as int);
            lemma_common_match(o_t, n_t, at as int, at as int, oe, ne);
            lemma_kept_push(script@, Step::Keep(at, at));
            assert(keep_run(0, 0, at + 1) =~= keep_run(0, 0, at as int).push(Step::Keep(at, at)));
        }
        script.push(Step::Keep(at, at));
        at = at + 1;
    }

    let ghost before_lcs = script@;
    let ghost o1 = oe - tail;
    let ghost n1 = ne - tail;
    proof {
        if fits {
            assert((o1 - head + 1) * (n1 - head + 1) <= (oe + 1) * (ne + 1)) by (nonlinear_arith)
                requires
                    0 <= o1 - head <= oe,
                    0 <= n1 - head <= ne,
            ;
        }
        assert forall|j: int| o1 <= j < o1 + tail implies #[trigger] o_t[j] == n_t[j - o1 + n1] by {
            assert(oe - tail <= j < oe);
        }
        lemma_common_suffix(o_t, n_t, head as int, head as int, o1, n1, tail as int);
    }
    lcs(old, new, head, old.len() - tail, head, new.len() - tail, &mut script);
    assert(o_t == n_t ==> script@ == before_lcs);
    let ghost middle = common_from(o_t, n_t, head as int, head as int, o1, n1);

    let mut at: usize = 0;
    while at < tail
        invariant
            o_t == n_t ==> forall|k: int| 0 <= k < script@.len() ==> script@[k] is Keep,
            fits ==> kept_count(script@) == head + middle + at,
            fits ==> script@ == keep_run(0, 0, head as int) + lcs_walk(o_t, n_t, head as int, head as int, o1, n1)
                + keep_run(o1, n1, at as int),
            o1 == oe - tail,
            n1 == ne - tail,
            oe == old@.len(),
            ne == new@.len(),
            fits ==> total == head + middle + tail,
            at <= tail,
            tail <= old.len() - head,
            tail <= new.len() - head,
            o_t == texts(old@),
            n_t == texts(new@),
            common_suffix(o_t, n_t, tail as int),
            walks(
                script@,
                o_t,
                n_t,
                (old.len() - tail + at) as int,
                (new.len() - tail + at) as int,
            ),
        decreases tail - at,
    {
        let o = old.len() - tail + at;
        let n = new.len() - tail + at;
        proof {
            assert(o_t[o as int] == n_t[n as int]);
            lemma_walk_push(script@, Step::Keep(o, n), o_t, n_t, o as int, n as int);
            lemma_kept_push(script@, Step::Keep(o, n));
            assert(keep_run(o1, n1, at + 1) =~= keep_run(o1, n1, at as int).push(Step::Keep(o, n)));
        }
        script.push(Step::Keep(o, n));
        at = at + 1;
    }
    proof {
        assert forall|other: Seq<Step>| #[trigger] is_script(other, o_t, n_t) implies kept_count(other) <= total by {
            lemma_scripts_keep_at_most(other, o_t, n_t);
        }
    }
    script
}

/// Whether `script` keeps as many lines as any script between the two texts can.
pub open spec fn keeps_the_most(script: Seq<Step>, old: Seq<Seq<char>>, new: Seq<Seq<char>>) -> bool {
    forall|other: Seq<Step>| #[trigger] is_script(other, old, new) ==> kept_count(other) <= kept_count(script)
}

/// How many steps of `script` keep a line.
pub open spec fn kept_count(script: Seq<Step>) -> int
    decreases script.len(),
{
    if script.len() == 0 {
        0
    } else {
        kept_count(script.drop_last()) + if script.last() is Keep { 1int } else { 0int }
    }
}

/// How many lines `old[o..oe]` and `new[n..ne]` share in order, at the most: the length of their
/// longest common subsequence, taken one line at a time from the front.
pub open spec fn common_from(old: Seq<Seq<char>>, new: Seq<Seq<char>>, o: int, n: int, oe: int, ne: int) -> int
    decreases (oe - o) + (ne - n),
{
    if o < 0 || n < 0 || o >= oe || n >= ne {
        0
    } else {
        let down = common_from(old, new, o + 1, n, oe, ne);
        let right = common_from(old, new, o, n + 1, oe, ne);
        let skip = if down >= right { down } else { right };
        if old[o] == new[n] {
            let both = 1 + common_from(old, new, o + 1, n + 1, oe, ne);
            if both >= skip { both } else { skip }
        } else {
            skip
        }
    }
}

/// Keeping a step's worth of script adds one kept line exactly when the step keeps one.
pub proof fn lemma_kept_push(script: Seq<Step>, x: Step)
    ensures
        kept_count(script.push(x)) == kept_count(script) + if x is Keep { 1int } else { 0int },
{
    assert(script.push(x).drop_last() =~= script);
}

/// What two stretches share is no more than either is long.
pub proof fn lemma_common_bounds(old: Seq<Seq<char>>, new: Seq<Seq<char>>, o: int, n: int, oe: int, ne: int)
    requires
        0 <= o <= oe,
        0 <= n <= ne,
    ensures
        0 <= common_from(old, new, o, n, oe, ne) <= oe - o,
        common_from(old, new, o, n, oe, ne) <= ne - n,
    decreases (oe - o) + (ne - n),
{
    if o < oe && n < ne {
        lemma_common_bounds(old, new, o + 1, n, oe, ne);
        lemma_common_bounds(old, new, o, n + 1, oe, ne);
        lemma_common_bounds(old, new, o + 1, n + 1, oe, ne);
    }
}

/// Taking one line off the front of either stretch loses at most one shared line.
pub proof fn lemma_common_steps(old: Seq<Seq<char>>, new: Seq<Seq<char>>, o: int, n: int, oe: int, ne: int)
    requires
        0 <= o <= oe,
        0 <= n <= ne,
    ensures
        o < oe ==> common_from(old, new, o + 1, n, oe, ne) <= common_from(old, new, o, n, oe, ne)
            <= common_from(old, new, o + 1, n, oe, ne) + 1,
        n < ne ==> common_from(old, new, o, n + 1, oe, ne) <= common_from(old, new, o, n, oe, ne)
            <= common_from(old, new, o, n + 1, oe, ne) + 1,
    decreases (oe - o) + (ne - n),
{
    if o < oe && n < ne {
        lemma_common_steps(old, new, o + 1, n, oe, ne);
        lemma_common_steps(old, new, o, n + 1, oe, ne);
    }
}

/// Where both stretches begin with the same line, keeping it loses nothing.
pub proof fn lemma_common_match(old: Seq<Seq<char>>, new: Seq<Seq<char>>, o: int, n: int, oe: int, ne: int)
    requires
        0 <= o < oe,
        0 <= n < ne,
        old[o] == new[n],
    ensures
        common_from(old, new, o, n, oe, ne) == 1 + common_from(old, new, o + 1, n + 1, oe, ne),
{
    lemma_common_steps(old, new, o + 1, n, oe, ne);
    lemma_common_steps(old, new, o, n + 1, oe, ne);
}

/// Starting later in the new stretch shares no more.
proof fn lemma_common_along(old: Seq<Seq<char>>, new: Seq<Seq<char>>, o: int, n: int, n2: int, oe: int, ne: int)
    requires
        0 <= o <= oe,
        0 <= n <= n2 <= ne,
    ensures
        common_from(old, new, o, n2, oe, ne) <= common_from(old, new, o, n, oe, ne),
    decreases n2 - n,
{
    if n < n2 {
        lemma_common_steps(old, new, o, n, oe, ne);
        lemma_common_along(old, new, o, n + 1, n2, oe, ne);
    }
}

/// Starting later in the old stretch shares no more.
proof fn lemma_common_down(old: Seq<Seq<char>>, new: Seq<Seq<char>>, o: int, o2: int, n: int, oe: int, ne: int)
    requires
        0 <= o <= o2 <= oe,
        0 <= n <= ne,
    ensures
        common_from(old, new, o2, n, oe, ne) <= common_from(old, new, o, n, oe, ne),
    decreases o2 - o,
{
    if o < o2 {
        lemma_common_steps(old, new, o, n, oe, ne);
        lemma_common_down(old, new, o + 1, o2, n, oe, ne);
    }
}

/// Two stretches that end the same way share all of that ending.
proof fn lemma_common_tail(old: Seq<Seq<char>>, new: Seq<Seq<char>>, o1: int, n1: int, t: int, i: int)
    requires
        0 <= o1,
        0 <= n1,
        0 <= i <= t,
        forall|j: int| o1 <= j < o1 + t ==> #[trigger] old[j] == new[j - o1 + n1],
    ensures
        common_from(old, new, o1 + i, n1 + i, o1 + t, n1 + t) == t - i,
    decreases t - i,
{
    if i < t {
        lemma_common_tail(old, new, o1, n1, t, i + 1);
        assert(old[o1 + i] == new[(o1 + i) - o1 + n1]);
        lemma_common_match(old, new, o1 + i, n1 + i, o1 + t, n1 + t);
    }
}

/// Lines the two texts end with in common are shared on top of whatever the stretches before
/// them share.
pub proof fn lemma_common_suffix(old: Seq<Seq<char>>, new: Seq<Seq<char>>, o: int, n: int, o1: int, n1: int, t: int)
    requires
        0 <= o <= o1,
        0 <= n <= n1,
        0 <= t,
        forall|j: int| o1 <= j < o1 + t ==> #[trigger] old[j] == new[j - o1 + n1],
    ensures
        common_from(old, new, o, n, o1 + t, n1 + t) == common_from(old, new, o, n, o1, n1) + t,
    decreases (o1 - o) + (n1 - n),
{
    if o == o1 {
        lemma_common_tail(old, new, o1, n1, t, 0);
        lemma_common_along(old, new, o1, n, n1, o1 + t, n1 + t);
        lemma_common_bounds(old, new, o1, n, o1 + t, n1 + t);
    } else if n == n1 {
        lemma_common_tail(old, new, o1, n1, t, 0);
        lemma_common_down(old, new, o, o1, n1, o1 + t, n1 + t);
        lemma_common_bounds(old, new, o, n1, o1 + t, n1 + t);
    } else {
        lemma_common_suffix(old, new, o + 1, n, o1, n1, t);
        lemma_common_suffix(old, new, o, n + 1, o1, n1, t);
        lemma_common_suffix(old, new, o + 1, n + 1, o1, n1, t);
    }
}

/// The first `k` steps of a script, and what the texts still share after them, are never more
/// than the texts share from the top.
proof fn lemma_prefix_keeps_at_most(script: Seq<Step>, old: Seq<Seq<char>>, new: Seq<Seq<char>>, k: int)
    requires
        is_script(script, old, new),
        0 <= k <= script.len(),
    ensures
        kept_count(script.take(k)) + common_from(
            old,
            new,
            olds_before(script, k),
            news_before(script, k),
            old.len() as int,
            new.len() as int,
        ) <= common_from(old, new, 0, 0, old.len() as int, new.len() as int),
    decreases k,
{
    if k == 0 {
        assert(script.take(0) =~= Seq::<Step>::empty());
    } else {
        let j = k - 1;
        lemma_prefix_keeps_at_most(script, old, new, j);
        assert(step_fits(script, j, old, new));
        lemma_counts_nonnegative(script, j);
        lemma_counts_monotone(script, k, script.len() as int);
        assert(script.take(k) =~= script.take(j).push(script[j]));
        lemma_kept_push(script.take(j), script[j]);
    }
}

/// No script between two texts keeps more lines than they share.
pub proof fn lemma_scripts_keep_at_most(script: Seq<Step>, old: Seq<Seq<char>>, new: Seq<Seq<char>>)
    requires
        is_script(script, old, new),
    ensures
        kept_count(script) <= common_from(old, new, 0, 0, old.len() as int, new.len() as int),
{
    lemma_prefix_keeps_at_most(script, old, new, script.len() as int);
    assert(script.take(script.len() as int) =~= script);
}

/// How many first lines two texts share, counting on from `k`.
pub open spec fn shared_head(old: Seq<Seq<char>>, new: Seq<Seq<char>>, k: int) -> int
    decreases old.len() - k,
{
    if 0 <= k < old.len() && k < new.len() && old[k] == new[k] {
        shared_head(old, new, k + 1)
    } else {
        k
    }
}

/// How many last lines two texts share below their first `h`, counting on from `t`.
pub open spec fn shared_tail(old: Seq<Seq<char>>, new: Seq<Seq<char>>, h: int, t: int) -> int
    decreases old.len() - h - t,
{
    if 0 <= t && t < old.len() - h && t < new.len() - h && old[old.len() - 1 - t] == new[new.len() - 1 - t] {
        shared_tail(old, new, h, t + 1)
    } else {
        t
    }
}

/// `count` lines kept, the first at `o` in the old text and `n` in the new.
pub open spec fn keep_run(o: int, n: int, count: int) -> Seq<Step> {
    Seq::new(count as nat, |i: int| Step::Keep((o + i) as usize, (n + i) as usize))
}

/// The steps that walk `old[o..oe]` and `new[n..ne]` through their longest common subsequence:
/// a line both begin with is kept; otherwise the old line is removed when that loses no shared
/// line, else the new one is added; and once one side is walked, the rest of the other goes.
pub open spec fn lcs_walk(old: Seq<Seq<char>>, new: Seq<Seq<char>>, o: int, n: int, oe: int, ne: int) -> Seq<Step>
    decreases oe - o, ne - n,
{
    if o < 0 || n < 0 {
        seq![]
    } else if o < oe && n < ne {
        if old[o] == new[n] {
            seq![Step::Keep(o as usize, n as usize)] + lcs_walk(old, new, o + 1, n + 1, oe, ne)
        } else if common_from(old, new, o + 1, n, oe, ne) >= common_from(old, new, o, n + 1, oe, ne) {
            seq![Step::Remove(o as usize)] + lcs_walk(old, new, o + 1, n, oe, ne)
        } else {
            seq![Step::Add(n as usize)] + lcs_walk(old, new, o, n + 1, oe, ne)
        }
    } else if o < oe {
        seq![Step::Remove(o as usize)] + lcs_walk(old, new, o + 1, n, oe, ne)
    } else if n < ne {
        seq![Step::Add(n as usize)] + lcs_walk(old, new, o, n + 1, oe, ne)
    } else {
        seq![]
    }
}

/// The edit script the diff draws: the lines both texts begin with kept, then the longest common
/// subsequence of what lies between, removing before adding where either would do, then the
/// lines both end with kept.
pub open spec fn diff_script(old: Seq<Seq<char>>, new: Seq<Seq<char>>) -> Seq<Step> {
    let h = shared_head(old, new, 0);
    let t = shared_tail(old, new, h, 0);
    keep_run(0, 0, h) + lcs_walk(old, new, h, h, old.len() - t, new.len() - t) + keep_run(
        old.len() - t,
        new.len() - t,
        t,
    )
}

/// One cell of a table kept row by row, `columns` to a row.
pub open spec fn cell(table: Seq<usize>, columns: int, r: int, c: int) -> int {
    table[r * columns + c] as int
}

/// Two cells of a table kept row by row are at two places.
proof fn lemma_cells_apart(columns: int, r: int, c: int, r2: int, c2: int)
    requires
        0 <= c < columns,
        0 <= c2 < columns,
        0 <= r,
        0 <= r2,
        r != r2 || c != c2,
    ensures
        r * columns + c != r2 * columns + c2,
{
    if r < r2 {
        assert(r * columns + c < r2 * columns + c2) by (nonlinear_arith)
            requires
                r < r2,
                0 <= c < columns,
                0 <= c2,
        ;
    } else if r2 < r {
        assert(r2 * columns + c2 < r * columns + c) by (nonlinear_arith)
            requires
                r2 < r,
                0 <= c2 < columns,
                0 <= c,
        ;
    }
}

/// A cell of a table of `rows + 1` rows is inside it.
proof fn lemma_cell_inside(columns: int, rows: int, r: int, c: int)
    requires
        0 <= r <= rows,
        0 <= c < columns,
    ensures
        0 <= r * columns + c < (rows + 1) * columns,
{
    assert(0 <= r * columns + c < (rows + 1) * columns) by (nonlinear_arith)
        requires
            0 <= r <= rows,
            0 <= c < columns,
    ;
}

/// Appends the edit script that walks `old[o0..o1]` and `new[n0..n1]`.
///
/// The two stretches share no first or last line, which is what [`myers`] leaves here. A table of
/// how long the common subsequence is from each pair of positions onward decides which way to go
/// at each line that differs, so the script keeps as many lines as the stretches share.
///
/// A table too large to index is not built: the stretch is then walked as everything old removed
/// and everything new added, which is still a script that turns one text into the other.
fn lcs(a: &[String], b: &[String], o0: usize, o1: usize, n0: usize, n1: usize, script: &mut Vec<Step>)
    requires
        o0 <= o1 <= a.len(),
        n0 <= n1 <= b.len(),
        walks(old(script)@, texts(a@), texts(b@), o0 as int, n0 as int),
    ensures
        walks(final(script)@, texts(a@), texts(b@), o1 as int, n1 as int),
        o0 == o1 && n0 == n1 ==> final(script)@ == old(script)@,
        (o1 - o0 + 1) * (n1 - n0 + 1) <= usize::MAX ==> kept_count(final(script)@) == kept_count(old(script)@)
            + common_from(texts(a@), texts(b@), o0 as int, n0 as int, o1 as int, n1 as int),
        (o1 - o0 + 1) * (n1 - n0 + 1) <= usize::MAX ==> final(script)@ == old(script)@ + lcs_walk(
            texts(a@),
            texts(b@),
            o0 as int,
            n0 as int,
            o1 as int,
            n1 as int,
        ),
{
    let ghost o_t = texts(a@);
    let ghost n_t = texts(b@);
    let ghost start = script@;
    let ghost whole = common_from(o_t, n_t, o0 as int, n0 as int, o1 as int, n1 as int);
    let ghost walk = lcs_walk(o_t, n_t, o0 as int, n0 as int, o1 as int, n1 as int);
    assert(start + walk =~= script@ + lcs_walk(o_t, n_t, o0 as int, n0 as int, o1 as int, n1 as int));
    let rows_count = o1 - o0;
    let columns_count = n1 - n0;
    let size = if rows_count < usize::MAX && columns_count < usize::MAX {
        (rows_count + 1).checked_mul(columns_count + 1)
    } else {
        None
    };
    let ghost exact = size is Some;
    proof {
        if (o1 - o0 + 1) * (n1 - n0 + 1) <= usize::MAX {
            assert(rows_count + 1 <= (rows_count + 1) * (columns_count + 1)) by (nonlinear_arith)
                requires
                    columns_count >= 0,
                    rows_count >= 0,
            ;
            assert(columns_count + 1 <= (rows_count + 1) * (columns_count + 1)) by (nonlinear_arith)
                requires
                    columns_count >= 0,
                    rows_count >= 0,
            ;
            assert(exact);
        }
    }

    let mut o = o0;
    let mut n = n0;
    if rows_count > 0 && columns_count > 0 && size.is_some() {
        let columns = columns_count + 1;
        let total = size.unwrap();
        let ghost cols = columns as int;
        let ghost rows = rows_count as int;
        let mut table: Vec<usize> = Vec::new();
        let mut filled: usize = 0;
        while filled < total
            invariant
                filled <= total,
                table@.len() == filled,
                forall|i: int| 0 <= i < filled ==> table@[i] == 0,
            decreases total - filled,
        {
            table.push(0);
            filled = filled + 1;
        }
        proof {
            assert forall|r2: int, c2: int|
                0 <= r2 <= rows && 0 <= c2 < cols && (r2 >= rows || c2 == cols - 1) implies #[trigger] cell(
                table@,
                cols,
                r2,
                c2,
            ) == common_from(o_t, n_t, o0 + r2, n0 + c2, o1 as int, n1 as int) by {
                lemma_cell_inside(cols, rows, r2, c2);
            }
        }
        // From the bottom right upwards: each cell needs the one below, the one to the right and
        // the one diagonally below.
        let mut r = rows_count;
        while r > 0
            invariant
                r <= rows_count,
                (rows_count + 1) * columns == total,
                columns == columns_count + 1,
                table@.len() == total,
                o0 + rows_count == o1,
                n0 + columns_count == n1,
                o1 <= a.len(),
                n1 <= b.len(),
                o_t == texts(a@),
                n_t == texts(b@),
                cols == columns,
                rows == rows_count,
                forall|r2: int, c2: int|
                    0 <= r2 <= rows && 0 <= c2 < cols && (r2 >= r || c2 == cols - 1) ==> #[trigger] cell(
                        table@,
                        cols,
                        r2,
                        c2,
                    ) == common_from(o_t, n_t, o0 + r2, n0 + c2, o1 as int, n1 as int),
            decreases r,
        {
            r = r - 1;
            let mut c = columns_count;
            while c > 0
                invariant
                    c <= columns_count,
                    r < rows_count,
                    (rows_count + 1) * columns == total,
                    columns == columns_count + 1,
                    table@.len() == total,
                    o0 + rows_count == o1,
                    n0 + columns_count == n1,
                    o1 <= a.len(),
                    n1 <= b.len(),
                    o_t == texts(a@),
                    n_t == texts(b@),
                    cols == columns,
                    rows == rows_count,
                    forall|r2: int, c2: int|
                        0 <= r2 <= rows && 0 <= c2 < cols && (r2 > r || (r2 == r && c2 >= c) || c2 == cols - 1)
                            ==> #[trigger] cell(table@, cols, r2, c2) == common_from(
                            o_t,
                            n_t,
                            o0 + r2,
                            n0 + c2,
                            o1 as int,
                            n1 as int,
                        ),
                decreases c,
            {
                c = c - 1;
                proof {
                    lemma_cell_inside(cols, rows, r as int, c as int);
                    lemma_cell_inside(cols, rows, r + 1, c as int);
                    lemma_cell_inside(cols, rows, r as int, c + 1);
                    lemma_cell_inside(cols, rows, r + 1, c + 1);
                    lemma_common_bounds(o_t, n_t, o0 + r + 1, n0 + c + 1, o1 as int, n1 as int);
                }
                let here = r * columns + c;
                let below = table[(r + 1) * columns + c];
                let right = table[r * columns + c + 1];
                let ghost want = common_from(o_t, n_t, o0 + r, n0 + c, o1 as int, n1 as int);
                assert(below == cell(table@, cols, r + 1, c as int));
                assert(right == cell(table@, cols, r as int, c + 1));
                let value = if a[o0 + r] == b[n0 + c] {
                    proof {
                        assert(o_t[o0 + r] == n_t[n0 + c]);
                        lemma_common_match(o_t, n_t, o0 + r, n0 + c, o1 as int, n1 as int);
                        assert(table@[(r + 1) * columns + c + 1] == cell(table@, cols, r + 1, c + 1));
                    }
                    table[(r + 1) * columns + c + 1] + 1
                } else if below >= right {
                    proof {
                        assert(o_t[o0 + r] != n_t[n0 + c]);
                    }
                    below
                } else {
                    proof {
                        assert(o_t[o0 + r] != n_t[n0 + c]);
                    }
                    right
                };
                assert(value == want);
                let ghost before = table@;
                table.set(here, value);
                proof {
                    assert forall|r2: int, c2: int|
                        0 <= r2 <= rows && 0 <= c2 < cols && (r2 > r || (r2 == r && c2 >= c) || c2 == cols - 1)
                            implies #[trigger] cell(table@, cols, r2, c2) == common_from(
                            o_t,
                            n_t,
                            o0 + r2,
                            n0 + c2,
                            o1 as int,
                            n1 as int,
                        ) by {
                        lemma_cell_inside(cols, rows, r2, c2);
                        if r2 != r || c2 != c {
                            lemma_cells_apart(cols, r as int, c as int, r2, c2);
                            assert(cell(before, cols, r2, c2) == common_from(o_t, n_t, o0 + r2, n0 + c2, o1 as int, n1 as int));
                        }
                    }
                }
            }
        }

        while o < o1 && n < n1
            invariant
                o0 <= o <= o1,
                n0 <= n <= n1,
                o1 <= a.len(),
                n1 <= b.len(),
                o0 + rows_count == o1,
                n0 + columns_count == n1,
                (rows_count + 1) * columns == total,
                columns == columns_count + 1,
                table@.len() == total,
                o_t == texts(a@),
                n_t == texts(b@),
                cols == columns,
                rows == rows_count,
                exact,
                whole == common_from(o_t, n_t, o0 as int, n0 as int, o1 as int, n1 as int),
                walks(script@, o_t, n_t, o as int, n as int),
                kept_count(script@) == kept_count(start) + whole - common_from(o_t, n_t, o as int, n as int, o1 as int, n1 as int),
                walk == lcs_walk(o_t, n_t, o0 as int, n0 as int, o1 as int, n1 as int),
                start + walk == script@ + lcs_walk(o_t, n_t, o as int, n as int, o1 as int, n1 as int),
                forall|r2: int, c2: int|
                    0 <= r2 <= rows && 0 <= c2 < cols ==> #[trigger] cell(table@, cols, r2, c2) == common_from(
                        o_t,
                        n_t,
                        o0 + r2,
                        n0 + c2,
                        o1 as int,
                        n1 as int,
                    ),
            decreases (o1 - o) + (n1 - n),
        {
            let r = o - o0;
            let c = n - n0;
            proof {
                lemma_cell_inside(cols, rows, r + 1, c as int);
                lemma_cell_inside(cols, rows, r as int, c + 1);
            }
            if a[o] == b[n] {
                proof {
                    lemma_walk_push(script@, Step::Keep(o, n), o_t, n_t, o as int, n as int);
                    lemma_common_match(o_t, n_t, o as int, n as int, o1 as int, n1 as int);
                    lemma_kept_push(script@, Step::Keep(o, n));
                    let rest = lcs_walk(o_t, n_t, o + 1, n + 1, o1 as int, n1 as int);
                    assert(script@.push(Step::Keep(o, n)) + rest =~= script@ + (seq![Step::Keep(o, n)] + rest));
                }
                script.push(Step::Keep(o, n));
                o = o + 1;
                n = n + 1;
            } else if table[(r + 1) * columns + c] >= table[r * columns + c + 1] {
                proof {
                    assert(table@[(r + 1) * columns + c] == cell(table@, cols, r + 1, c as int));
                    assert(table@[r * columns + c + 1] == cell(table@, cols, r as int, c + 1));
                    assert(o_t[o as int] != n_t[n as int]);
                    lemma_walk_push(script@, Step::Remove(o), o_t, n_t, o as int, n as int);
                    lemma_kept_push(script@, Step::Remove(o));
                    let rest = lcs_walk(o_t, n_t, o + 1, n as int, o1 as int, n1 as int);
                    assert(script@.push(Step::Remove(o)) + rest =~= script@ + (seq![Step::Remove(o)] + rest));
                }
                script.push(Step::Remove(o));
                o = o + 1;
            } else {
                proof {
                    assert(table@[(r + 1) * columns + c] == cell(table@, cols, r + 1, c as int));
                    assert(table@[r * columns + c + 1] == cell(table@, cols, r as int, c + 1));
                    assert(o_t[o as int] != n_t[n as int]);
                    lemma_walk_push(script@, Step::Add(n), o_t, n_t, o as int, n as int);
                    lemma_kept_push(script@, Step::Add(n));
                    let rest = lcs_walk(o_t, n_t, o as int, n + 1, o1 as int, n1 as int);
                    assert(script@.push(Step::Add(n)) + rest =~= script@ + (seq![Step::Add(n)] + rest));
                }
                script.push(Step::Add(n));
                n = n + 1;
            }
        }
    }
    while o < o1
        invariant
            o0 == o1 && n0 == n1 ==> script@ == old(script)@,
            o0 <= o <= o1,
            o1 <= a.len(),
            n0 <= n <= n1,
            o_t == texts(a@),
            n_t == texts(b@),
            walks(script@, o_t, n_t, o as int, n as int),
            start == old(script)@,
            whole == common_from(o_t, n_t, o0 as int, n0 as int, o1 as int, n1 as int),
            exact ==> o == o1 || n == n1,
            exact ==> kept_count(script@) == kept_count(start) + whole - common_from(o_t, n_t, o as int, n as int, o1 as int, n1 as int),
            walk == lcs_walk(o_t, n_t, o0 as int, n0 as int, o1 as int, n1 as int),
            exact ==> start + walk == script@ + lcs_walk(o_t, n_t, o as int, n as int, o1 as int, n1 as int),
        decreases o1 - o,
    {
        proof {
            lemma_walk_push(script@, Step::Remove(o), o_t, n_t, o as int, n as int);
            lemma_kept_push(script@, Step::Remove(o));
            let rest = lcs_walk(o_t, n_t, o + 1, n as int, o1 as int, n1 as int);
            assert(script@.push(Step::Remove(o)) + rest =~= script@ + (seq![Step::Remove(o)] + rest));
        }
        script.push(Step::Remove(o));
        o = o + 1;
    }
    while n < n1
        invariant
            o0 == o1 && n0 == n1 ==> script@ == old(script)@,
            n0 <= n <= n1,
            n1 <= b.len(),
            o == o1,
            o_t == texts(a@),
            n_t == texts(b@),
            walks(script@, o_t, n_t, o as int, n as int),
            start == old(script)@,
            whole == common_from(o_t, n_t, o0 as int, n0 as int, o1 as int, n1 as int),
            exact ==> kept_count(script@) == kept_count(start) + whole - common_from(o_t, n_t, o as int, n as int, o1 as int, n1 as int),
            walk == lcs_walk(o_t, n_t, o0 as int, n0 as int, o1 as int, n1 as int),
            exact ==> start + walk == script@ + lcs_walk(o_t, n_t, o as int, n as int, o1 as int, n1 as int),
        decreases n1 - n,
    {
        proof {
            lemma_walk_push(script@, Step::Add(n), o_t, n_t, o as int, n as int);
            lemma_kept_push(script@, Step::Add(n));
            let rest = lcs_walk(o_t, n_t, o as int, n + 1, o1 as int, n1 as int);
            assert(script@.push(Step::Add(n)) + rest =~= script@ + (seq![Step::Add(n)] + rest));
        }
        script.push(Step::Add(n));
        n = n + 1;
    }
    proof {
        assert(lcs_walk(o_t, n_t, o as int, n as int, o1 as int, n1 as int) == Seq::<Step>::empty());
        if exact {
            assert(start + walk =~= script@);
        }
    }
}


/// Whether step `i` of `script` changes something.
pub open spec fn changed(script: Seq<Step>, i: int) -> bool {
    0 <= i < script.len() && !(script[i] is Keep)
}

/// Whether step `p` is within [`CONTEXT`] steps of a change among the first `limit`.
pub open spec fn near(script: Seq<Step>, p: int, limit: int) -> bool {
    exists|c: int|
        #![trigger changed(script, c)]
        0 <= c < limit && changed(script, c) && c - CONTEXT <= p && p <= c + CONTEXT
}

/// Whether `runs` are the maximal runs of steps near a change among the first `limit`, in order.
///
/// Each hunk is one run: a change with its context, and every change close enough that the two
/// contexts would touch.
pub open spec fn runs_of(script: Seq<Step>, runs: Seq<(int, int)>, limit: int) -> bool {
    &&& forall|k: int|
        #![trigger runs[k]]
        0 <= k < runs.len() ==> 0 <= runs[k].0 < runs[k].1 <= script.len()
    &&& forall|k: int, l: int|
        #![trigger runs[k], runs[l]]
        0 <= k < l < runs.len() ==> runs[k].1 < runs[l].0
    &&& forall|k: int, p: int|
        #![trigger runs[k], near(script, p, limit)]
        0 <= k < runs.len() && runs[k].0 <= p < runs[k].1 ==> near(script, p, limit)
    &&& forall|k: int|
        #![trigger runs[k]]
        0 <= k < runs.len() ==> runs[k].0 == 0 || !near(script, runs[k].0 - 1, limit)
    &&& forall|k: int|
        #![trigger runs[k]]
        0 <= k < runs.len() ==> runs[k].1 == script.len() || !near(script, runs[k].1, limit)
    &&& forall|p: int|
        #![trigger near(script, p, limit)]
        0 <= p < script.len() && near(script, p, limit) ==> exists|k: int|
            #![trigger runs[k]]
            0 <= k < runs.len() && runs[k].0 <= p < runs[k].1
}

/// Whether `line` is what `step` draws.
pub open spec fn line_is(line: Line, step: Step, old: Seq<Seq<char>>, new: Seq<Seq<char>>) -> bool {
    match step {
        Step::Keep(o, n) => {
            &&& line.kind == LineKind::Context
            &&& line.text@ == old[o as int]
            &&& line.old == Some((o + 1) as u32)
            &&& line.new == Some((n + 1) as u32)
        },
        Step::Remove(o) => {
            &&& line.kind == LineKind::Removed
            &&& line.text@ == old[o as int]
            &&& line.old == Some((o + 1) as u32)
            &&& line.new is None
        },
        Step::Add(n) => {
            &&& line.kind == LineKind::Added
            &&& line.text@ == new[n as int]
            &&& line.old is None
            &&& line.new == Some((n + 1) as u32)
        },
    }
}

/// Whether `hunk` is steps `from..to` of `script`, drawn.
///
/// Its counts are the lines of each side the steps walk, and each side starts where the first of
/// those lines is, or at line zero when the hunk walks none of that side, as git writes it.
pub open spec fn hunk_is(
    hunk: DiffHunk,
    script: Seq<Step>,
    old: Seq<Seq<char>>,
    new: Seq<Seq<char>>,
    from: int,
    to: int,
) -> bool {
    &&& hunk.lines@.len() == to - from
    &&& forall|j: int|
        #![trigger hunk.lines@[j]]
        0 <= j < to - from ==> line_is(hunk.lines@[j], script[from + j], old, new)
    &&& hunk.old_count == olds_before(script, to) - olds_before(script, from)
    &&& hunk.new_count == news_before(script, to) - news_before(script, from)
    &&& hunk.old_start == if hunk.old_count > 0 {
        olds_before(script, from) + 1
    } else {
        0
    }
    &&& hunk.new_start == if hunk.new_count > 0 {
        news_before(script, from) + 1
    } else {
        0
    }
}

/// Whether `hunks` are what the runs of `script` draw.
pub open spec fn hunks_of(
    hunks: Seq<DiffHunk>,
    script: Seq<Step>,
    runs: Seq<(int, int)>,
    old: Seq<Seq<char>>,
    new: Seq<Seq<char>>,
) -> bool {
    &&& runs_of(script, runs, script.len() as int)
    &&& hunks.len() == runs.len()
    &&& forall|k: int|
        #![trigger hunks[k]]
        0 <= k < hunks.len() ==> hunk_is(hunks[k], script, old, new, runs[k].0, runs[k].1)
}

/// The maximal runs of steps near a change, as (first, past the last).
#[verifier::rlimit(40)]
#[verifier::spinoff_prover]
fn runs(script: &Vec<Step>) -> (out: Vec<(usize, usize)>)
    ensures
        runs_of(script@, out@.map_values(|r: (usize, usize)| (r.0 as int, r.1 as int)), script@.len() as int),
{
    let ghost s = script@;
    let len = script.len();
    let mut groups: Vec<(usize, usize)> = Vec::new();
    let mut i: usize = 0;
    while i < len
        invariant
            i <= len,
            len == s.len(),
            s == script@,
            runs_of(s, groups@.map_values(|r: (usize, usize)| (r.0 as int, r.1 as int)), i as int),
            groups@.len() > 0 ==> groups@.last().1 <= i + CONTEXT,
            groups@.len() > 0 ==> (groups@.last().0 == 0 || groups@.last().0 + CONTEXT < i),
        decreases len - i,
    {
        let ghost before = groups@.map_values(|r: (usize, usize)| (r.0 as int, r.1 as int));
        proof {
            assert forall|p: int| #[trigger] near(s, p, i + 1) == (near(s, p, i as int) || (changed(s, i as int) && i - CONTEXT <= p <= i + CONTEXT)) by {
                if near(s, p, i + 1) {
                    let c = choose|c: int| #![trigger changed(s, c)] 0 <= c < i + 1 && changed(s, c) && c - CONTEXT <= p && p <= c + CONTEXT;
                    if c < i {
                        assert(near(s, p, i as int));
                    }
                }
                if near(s, p, i as int) {
                    let c = choose|c: int| #![trigger changed(s, c)] 0 <= c < i && changed(s, c) && c - CONTEXT <= p && p <= c + CONTEXT;
                    assert(near(s, p, i + 1));
                }
                if changed(s, i as int) && i - CONTEXT <= p <= i + CONTEXT {
                    assert(near(s, p, i + 1));
                }
            }
        }
        if !matches!(script[i], Step::Keep(_, _)) {
            let from = if i >= CONTEXT { i - CONTEXT } else { 0 };
            let to = if len - i > CONTEXT { i + CONTEXT + 1 } else { len };
            let n = groups.len();
            if n > 0 && groups[n - 1].1 >= from {
                let first = groups[n - 1].0;
                groups.set(n - 1, (first, to));
            } else {
                groups.push((from, to));
            }
            proof {
                let after = groups@.map_values(|r: (usize, usize)| (r.0 as int, r.1 as int));
                let lim = i + 1;
                assert(changed(s, i as int));
                if n > 0 && before[n - 1].1 >= from {
                    assert(forall|k: int| 0 <= k < n - 1 ==> after[k] == before[k]);
                    assert forall|p: int| #![trigger near(s, p, lim)] 0 <= p < s.len() && near(s, p, lim) implies exists|k: int|
                        #![trigger after[k]]
                        0 <= k < after.len() && after[k].0 <= p < after[k].1 by {
                        if near(s, p, i as int) {
                            let k = choose|k: int| #![trigger before[k]] 0 <= k < before.len() && before[k].0 <= p < before[k].1;
                            if k == n - 1 {
                                assert(after[k].0 <= p < after[k].1);
                            } else {
                                assert(after[k] == before[k]);
                            }
                        } else {
                            assert(after[n - 1].0 <= p < after[n - 1].1);
                        }
                    }
                    assert forall|k: int, p: int| #![trigger after[k], near(s, p, lim)] 0 <= k < after.len() && after[k].0 <= p < after[k].1 implies near(s, p, lim) by {
                        if k < n - 1 {
                            assert(after[k] == before[k]);
                            assert(near(s, p, i as int));
                        } else if p < before[k].1 {
                            assert(near(s, p, i as int));
                        }
                    }
                    assert forall|k: int| #![trigger after[k]] 0 <= k < after.len() implies after[k].0 == 0 || !near(s, after[k].0 - 1, lim) by {
                        if k < n - 1 {
                            assert(after[k] == before[k]);
                            assert(before[k].1 < before[n - 1].0);
                        }
                    }
                    assert forall|k: int| #![trigger after[k]] 0 <= k < after.len() implies after[k].1 == s.len() || !near(s, after[k].1, lim) by {
                        if k < n - 1 {
                            assert(after[k] == before[k]);
                            assert(before[k].1 < before[n - 1].0);
                        } else if after[k].1 != s.len() {
                            if near(s, after[k].1, i as int) {
                                let c = choose|c: int| #![trigger changed(s, c)] 0 <= c < i && changed(s, c) && c - CONTEXT <= after[k].1 && after[k].1 <= c + CONTEXT;
                            }
                        }
                    }
                    assert forall|k: int, l: int| #![trigger after[k], after[l]] 0 <= k < l < after.len() implies after[k].1 < after[l].0 by {
                        if l < n - 1 {
                            assert(after[k] == before[k] && after[l] == before[l]);
                        } else {
                            assert(after[k] == before[k]);
                        }
                    }
                } else {
                    assert(forall|k: int| 0 <= k < n ==> after[k] == before[k]);
                    assert forall|p: int| #![trigger near(s, p, lim)] 0 <= p < s.len() && near(s, p, lim) implies exists|k: int|
                        #![trigger after[k]]
                        0 <= k < after.len() && after[k].0 <= p < after[k].1 by {
                        if near(s, p, i as int) {
                            let k = choose|k: int| #![trigger before[k]] 0 <= k < before.len() && before[k].0 <= p < before[k].1;
                            assert(after[k] == before[k]);
                        } else {
                            assert(after[n as int].0 <= p < after[n as int].1);
                        }
                    }
                    assert forall|k: int, p: int| #![trigger after[k], near(s, p, lim)] 0 <= k < after.len() && after[k].0 <= p < after[k].1 implies near(s, p, lim) by {
                        if k < n {
                            assert(after[k] == before[k]);
                            assert(near(s, p, i as int));
                        }
                    }
                    assert forall|k: int| #![trigger after[k]] 0 <= k < after.len() implies after[k].0 == 0 || !near(s, after[k].0 - 1, lim) by {
                        if k < n {
                            assert(after[k] == before[k]);
                        } else if after[k].0 != 0 && near(s, after[k].0 - 1, i as int) {
                            let q = after[k].0 - 1;
                            let m = choose|m: int| #![trigger before[m]] 0 <= m < before.len() && before[m].0 <= q < before[m].1;
                            assert(before[m].1 <= before[n - 1].1) by {
                                if m < n - 1 {
                                    assert(before[m].1 < before[n - 1].0);
                                }
                            }
                        }
                    }
                    assert forall|k: int| #![trigger after[k]] 0 <= k < after.len() implies after[k].1 == s.len() || !near(s, after[k].1, lim) by {
                        if k < n {
                            assert(after[k] == before[k]);
                            assert(before[k].1 <= before[n - 1].1) by {
                                if k < n - 1 {
                                    assert(before[k].1 < before[n - 1].0);
                                }
                            }
                        } else if after[k].1 != s.len() {
                            if near(s, after[k].1, i as int) {
                                let c = choose|c: int| #![trigger changed(s, c)] 0 <= c < i && changed(s, c) && c - CONTEXT <= after[k].1 && after[k].1 <= c + CONTEXT;
                            }
                        }
                    }
                    assert forall|k: int, l: int| #![trigger after[k], after[l]] 0 <= k < l < after.len() implies after[k].1 < after[l].0 by {
                        if l < n {
                            assert(after[k] == before[k] && after[l] == before[l]);
                        } else {
                            assert(after[k] == before[k]);
                            assert(before[k].1 <= before[n - 1].1) by {
                                if k < n - 1 {
                                    assert(before[k].1 < before[n - 1].0);
                                }
                            }
                        }
                    }
                }
            }
        } else {
            proof {
                assert(!changed(s, i as int));
            }
        }
        i = i + 1;
    }
    groups
}


/// Steps `from..to` of `script`, drawn as a hunk.
fn hunk(old: &[String], new: &[String], script: &Vec<Step>, from: usize, to: usize) -> (out: DiffHunk)
    requires
        from <= to <= script@.len(),
        old@.len() < u32::MAX,
        new@.len() < u32::MAX,
        is_script(script@, texts(old@), texts(new@)),
    ensures
        hunk_is(out, script@, texts(old@), texts(new@), from as int, to as int),
{
    let ghost s = script@;
    let ghost o_t = texts(old@);
    let ghost n_t = texts(new@);
    let mut lines: Vec<Line> = Vec::new();
    let mut old_start: u32 = 0;
    let mut new_start: u32 = 0;
    let mut old_count: u32 = 0;
    let mut new_count: u32 = 0;
    let mut at = from;
    proof {
        lemma_counts_monotone(s, from as int, to as int);
        lemma_counts_monotone(s, to as int, s.len() as int);
    }
    while at < to
        invariant
            from <= at <= to <= s.len(),
            s == script@,
            o_t == texts(old@),
            n_t == texts(new@),
            old@.len() < u32::MAX,
            new@.len() < u32::MAX,
            is_script(s, o_t, n_t),
            lines@.len() == at - from,
            forall|j: int| #![trigger lines@[j]] 0 <= j < at - from ==> line_is(lines@[j], s[from + j], o_t, n_t),
            old_count == olds_before(s, at as int) - olds_before(s, from as int),
            new_count == news_before(s, at as int) - news_before(s, from as int),
            old_start == if old_count > 0 { olds_before(s, from as int) + 1 } else { 0 },
            new_start == if new_count > 0 { news_before(s, from as int) + 1 } else { 0 },
        decreases to - at,
    {
        proof {
            assert(step_fits(s, at as int, o_t, n_t));
            lemma_counts_monotone(s, from as int, at as int);
            lemma_counts_monotone(s, at as int, s.len() as int);
        }
        let line = match script[at] {
            Step::Keep(o, n) => {
                old_count = old_count + 1;
                new_count = new_count + 1;
                Line { kind: LineKind::Context, text: old[o].clone(), old: Some(o as u32 + 1), new: Some(n as u32 + 1) }
            },
            Step::Remove(o) => {
                old_count = old_count + 1;
                Line { kind: LineKind::Removed, text: old[o].clone(), old: Some(o as u32 + 1), new: None }
            },
            Step::Add(n) => {
                new_count = new_count + 1;
                Line { kind: LineKind::Added, text: new[n].clone(), old: None, new: Some(n as u32 + 1) }
            },
        };
        // A hunk that opens on an added line still starts somewhere in the old file, and that
        // somewhere is wherever the next old line is.
        if old_start == 0 {
            if let Some(o) = line.old {
                old_start = o;
            }
        }
        if new_start == 0 {
            if let Some(n) = line.new {
                new_start = n;
            }
        }
        lines.push(line);
        at = at + 1;
    }
    // A side the hunk walks none of starts at line zero, which is how git writes a file that
    // is new or gone: `@@ -0,0 +1,2 @@`.
    DiffHunk { old_start, old_count, new_start, new_count, lines }
}

/// The hunks between two lists of lines.
///
/// Lines are numbered from one in a `u32`, so each side has fewer lines than that holds.
pub fn hunks_between(old: &[String], new: &[String]) -> (out: Vec<DiffHunk>)
    requires
        old@.len() < u32::MAX,
        new@.len() < u32::MAX,
    ensures
        texts(old@) == texts(new@) ==> out@.len() == 0,
        exists|script: Seq<Step>, runs: Seq<(int, int)>|
            is_script(script, texts(old@), texts(new@)) && hunks_of(out@, script, runs, texts(old@), texts(new@))
                && ((old@.len() + 1) * (new@.len() + 1) <= usize::MAX ==> keeps_the_most(
                script,
                texts(old@),
                texts(new@),
            )),        (old@.len() + 1) * (new@.len() + 1) <= usize::MAX ==> exists|runs: Seq<(int, int)>|
            hunks_of(out@, diff_script(texts(old@), texts(new@)), runs, texts(old@), texts(new@)),
{
    let script = myers(old, new);
    let groups = runs(&script);
    let ghost rs = groups@.map_values(|r: (usize, usize)| (r.0 as int, r.1 as int));
    let mut out: Vec<DiffHunk> = Vec::new();
    let mut k: usize = 0;
    while k < groups.len()
        invariant
            k <= groups@.len(),
            rs == groups@.map_values(|r: (usize, usize)| (r.0 as int, r.1 as int)),
            runs_of(script@, rs, script@.len() as int),
            is_script(script@, texts(old@), texts(new@)),
            old@.len() < u32::MAX,
            new@.len() < u32::MAX,
            out@.len() == k,
            forall|j: int| #![trigger out@[j]] 0 <= j < k ==> hunk_is(out@[j], script@, texts(old@), texts(new@), rs[j].0, rs[j].1),
        decreases groups@.len() - k,
    {
        assert(rs[k as int] == (groups@[k as int].0 as int, groups@[k as int].1 as int));
        let (from, to) = groups[k];
        out.push(hunk(old, new, &script, from, to));
        k = k + 1;
    }
    assert(hunks_of(out@, script@, rs, texts(old@), texts(new@)));
    proof {
        if texts(old@) == texts(new@) && rs.len() > 0 {
            assert(near(script@, rs[0].0, script@.len() as int));
        }
    }
    out
}


/// `piece` without the carriage return it may end with.
pub open spec fn strip_cr(piece: Seq<char>) -> Seq<char> {
    if piece.len() > 0 && piece.last() == '\r' {
        piece.drop_last()
    } else {
        piece
    }
}

/// The lines of `text`: cut at each newline, each without a carriage return at its end, and no
/// empty last line after a newline that ends the text.
pub open spec fn lines_of_text(text: Seq<char>) -> Seq<Seq<char>> {
    let pieces = split_on(text, '\n').map_values(|piece: Seq<char>| strip_cr(piece));
    if text.len() > 0 && text.last() == '\n' {
        pieces.drop_last()
    } else {
        pieces
    }
}

/// The lines of a blob, read as UTF-8 with what does not decode replaced. None for no bytes.
pub open spec fn blob_lines(bytes: Seq<u8>) -> Seq<Seq<char>> {
    if bytes.len() == 0 {
        seq![]
    } else {
        lines_of_text(text_of(bytes))
    }
}

/// `piece` without a carriage return at its end.
fn stripped(piece: &Vec<char>) -> (out: String)
    ensures
        out@ == strip_cr(piece@),
{
    let n = piece.len();
    if n > 0 && piece[n - 1] == '\r' {
        let out = string_of_prefix(piece.as_slice(), n - 1);
        assert(piece@.take(n - 1) =~= piece@.drop_last());
        out
    } else {
        string_of(piece.as_slice())
    }
}

/// A blob's bytes as lines, without their newlines.
pub fn lines_of(bytes: &[u8]) -> (lines: Vec<String>)
    ensures
        texts(lines@) == blob_lines(bytes@),
{
    if bytes.len() == 0 {
        let lines: Vec<String> = Vec::new();
        assert(texts(lines@) =~= blob_lines(bytes@));
        return lines;
    }
    let text = chars_of(lossy(bytes).as_str());
    let ghost t = text@;
    let mut done: Vec<String> = Vec::new();
    let mut current: Vec<char> = Vec::new();
    let mut i: usize = 0;
    assert(t.take(0) =~= Seq::<char>::empty());
    while i < text.len()
        invariant
            i <= text@.len(),
            t == text@,
            split_on(t.take(i as int), '\n').len() == done@.len() + 1,
            forall|j: int| #![trigger done@[j]] 0 <= j < done@.len() ==> done@[j]@ == strip_cr(split_on(t.take(i as int), '\n')[j]),
            current@ == split_on(t.take(i as int), '\n').last(),
        decreases text.len() - i,
    {
        let ghost before = split_on(t.take(i as int), '\n');
        assert(t.take(i + 1).drop_last() =~= t.take(i as int));
        if text[i] == '\n' {
            done.push(stripped(&current));
            current = Vec::new();
            assert(current@ =~= Seq::<char>::empty());
        } else {
            current.push(text[i]);
        }
        i = i + 1;
    }
    assert(t.take(t.len() as int) =~= t);
    let ends = text.len() > 0 && text[text.len() - 1] == '\n';
    if !ends {
        done.push(stripped(&current));
    }
    let ghost pieces = split_on(t, '\n').map_values(|piece: Seq<char>| strip_cr(piece));
    assert(texts(done@) =~= lines_of_text(t));
    done
}

/// Whether a blob is something with lines in it.
pub open spec fn spec_is_binary(bytes: Seq<u8>) -> bool {
    exists|i: int| 0 <= i < bytes.len() && i < 8000 && bytes[i] == 0
}

/// Whether a blob is not text: a zero byte in its first eight kilobytes, the rule git itself uses.
pub fn is_binary(bytes: &[u8]) -> (out: bool)
    ensures
        out == spec_is_binary(bytes@),
{
    let mut i: usize = 0;
    while i < bytes.len() && i < 8000
        invariant
            i <= bytes@.len(),
            forall|j: int| 0 <= j < i ==> bytes@[j] != 0,
        decreases bytes.len() - i,
    {
        if bytes[i] == 0 {
            return true;
        }
        i = i + 1;
    }
    false
}

/// How many lines of `lines` are of `kind`.
pub open spec fn count_kind(lines: Seq<Line>, kind: LineKind) -> nat
    decreases lines.len(),
{
    if lines.len() == 0 {
        0
    } else {
        count_kind(lines.drop_last(), kind) + if lines.last().kind == kind { 1nat } else { 0nat }
    }
}

/// A count is never more than the lines counted.
pub proof fn lemma_count_kind_bound(lines: Seq<Line>, kind: LineKind)
    ensures
        count_kind(lines, kind) <= lines.len(),
    decreases lines.len(),
{
    if lines.len() > 0 {
        lemma_count_kind_bound(lines.drop_last(), kind);
    }
}

/// The `@@` line git prints for a hunk with these numbers.
pub open spec fn header_text(old_start: u32, old_count: u32, new_start: u32, new_count: u32) -> Seq<char> {
    "@@ -"@ + decimal(old_start as nat) + ","@ + decimal(old_count as nat) + " +"@ + decimal(
        new_start as nat,
    ) + ","@ + decimal(new_count as nat) + " @@"@
}

impl DiffHunk {
    /// The `@@` line git would print for it.
    pub fn header(&self) -> (out: String)
        ensures
            out@ == header_text(self.old_start, self.old_count, self.new_start, self.new_count),
    {
        let mut out = String::new();
        push_str(&mut out, "@@ -");
        push_decimal(&mut out, self.old_start as u64);
        push_str(&mut out, ",");
        push_decimal(&mut out, self.old_count as u64);
        push_str(&mut out, " +");
        push_decimal(&mut out, self.new_start as u64);
        push_str(&mut out, ",");
        push_decimal(&mut out, self.new_count as u64);
        push_str(&mut out, " @@");
        out
    }

    /// How many lines it adds and how many it takes away.
    pub fn counts(&self) -> (out: (usize, usize))
        ensures
            out.0 == count_kind(self.lines@, LineKind::Added),
            out.1 == count_kind(self.lines@, LineKind::Removed),
    {
        let mut added: usize = 0;
        let mut removed: usize = 0;
        let mut i: usize = 0;
        while i < self.lines.len()
            invariant
                i <= self.lines@.len(),
                added == count_kind(self.lines@.take(i as int), LineKind::Added),
                removed == count_kind(self.lines@.take(i as int), LineKind::Removed),
            decreases self.lines.len() - i,
        {
            assert(self.lines@.take(i + 1).drop_last() =~= self.lines@.take(i as int));
            proof {
                lemma_count_kind_bound(self.lines@.take(i as int), LineKind::Added);
                lemma_count_kind_bound(self.lines@.take(i as int), LineKind::Removed);
            }
            if self.lines[i].kind == LineKind::Added {
                added = added + 1;
            }
            if self.lines[i].kind == LineKind::Removed {
                removed = removed + 1;
            }
            i = i + 1;
        }
        assert(self.lines@.take(self.lines@.len() as int) =~= self.lines@);
        (added, removed)
    }
}

/// The whole of what changed in one file.
#[derive(Clone, Debug)]
pub struct FileDiff {
    /// Which file, as git names it.
    pub path: String,
    /// What it was called before, when it was moved.
    pub from: Option<String>,
    /// The hunks, in file order.
    pub hunks: Vec<DiffHunk>,
    /// Whether either side is not text.
    ///
    /// A binary file has no lines to show, and a panel that tried would draw a screenful of
    /// replacement characters.
    pub binary: bool,
    /// Whether the two sides differ at all, byte for byte: what says whether a binary file, which
    /// shows no lines, changed.
    pub differs: bool,
    /// The whole old text, for a consumer that reads past the hunks. None for a binary file, and
    /// for a file that is new.
    pub old_text: Option<String>,
    /// The whole new text. See `old_text`.
    pub new_text: Option<String>,
}

/// How many lines of `kind` all of `hunks` hold.
pub open spec fn total_kind(hunks: Seq<DiffHunk>, kind: LineKind) -> nat
    decreases hunks.len(),
{
    if hunks.len() == 0 {
        0
    } else {
        total_kind(hunks.drop_last(), kind) + count_kind(hunks.last().lines@, kind)
    }
}

impl FileDiff {
    /// Nothing changed.
    pub fn empty(path: &str) -> (out: FileDiff)
        ensures
            out.path@ == path@,
            out.from is None,
            out.hunks@.len() == 0,
            !out.binary,
            !out.differs,
            out.old_text is None,
            out.new_text is None,
    {
        FileDiff {
            path: path.to_owned(),
            from: None,
            hunks: Vec::new(),
            binary: false,
            differs: false,
            old_text: None,
            new_text: None,
        }
    }

    /// How many lines it adds and how many it takes away, across every hunk.
    ///
    /// Each count fits in a `usize`, as every count of lines held in memory does.
    pub fn counts(&self) -> (out: (usize, usize))
        requires
            total_kind(self.hunks@, LineKind::Added) <= usize::MAX,
            total_kind(self.hunks@, LineKind::Removed) <= usize::MAX,
        ensures
            out.0 == total_kind(self.hunks@, LineKind::Added),
            out.1 == total_kind(self.hunks@, LineKind::Removed),
    {
        let mut added: usize = 0;
        let mut removed: usize = 0;
        let mut i: usize = 0;
        while i < self.hunks.len()
            invariant
                i <= self.hunks@.len(),
                total_kind(self.hunks@, LineKind::Added) <= usize::MAX,
                total_kind(self.hunks@, LineKind::Removed) <= usize::MAX,
                added == total_kind(self.hunks@.take(i as int), LineKind::Added),
                removed == total_kind(self.hunks@.take(i as int), LineKind::Removed),
            decreases self.hunks.len() - i,
        {
            assert(self.hunks@.take(i + 1).drop_last() =~= self.hunks@.take(i as int));
            proof {
                lemma_total_prefix(self.hunks@, i + 1, LineKind::Added);
                lemma_total_prefix(self.hunks@, i + 1, LineKind::Removed);
            }
            let (a, r) = self.hunks[i].counts();
            added = added + a;
            removed = removed + r;
            i = i + 1;
        }
        assert(self.hunks@.take(self.hunks@.len() as int) =~= self.hunks@);
        (added, removed)
    }

    /// Whether anything changed at all.
    ///
    /// A binary file draws no hunks: it changed when its two sides differ.
    pub fn is_empty(&self) -> (out: bool)
        ensures
            out == (self.hunks@.len() == 0 && !(self.binary && self.differs)),
    {
        self.hunks.len() == 0 && !(self.binary && self.differs)
    }
}

/// A prefix holds no more than the whole.
pub proof fn lemma_total_prefix(hunks: Seq<DiffHunk>, k: int, kind: LineKind)
    requires
        0 <= k <= hunks.len(),
    ensures
        total_kind(hunks.take(k), kind) <= total_kind(hunks, kind),
    decreases hunks.len(),
{
    if k < hunks.len() {
        assert(hunks.drop_last().take(k) =~= hunks.take(k));
        lemma_total_prefix(hunks.drop_last(), k, kind);
    } else {
        assert(hunks.take(k) =~= hunks);
    }
}

/// Whether `diff` is what [`between`] says two blobs come to.
pub open spec fn diff_between(diff: FileDiff, path: Seq<char>, old: Option<Seq<u8>>, new: Option<Seq<u8>>) -> bool {
    let binary = (old matches Some(o) && spec_is_binary(o)) || (new matches Some(n) && spec_is_binary(n));
    &&& diff.path@ == path
    &&& diff.from is None
    &&& diff.binary == binary
    &&& diff.differs == (old != new)
    &&& binary ==> diff.hunks@.len() == 0 && diff.old_text is None && diff.new_text is None
    &&& !binary ==> {
        &&& (match old { Some(o) => diff.old_text matches Some(t) && t@ == text_of(o), None => diff.old_text is None })
        &&& (match new { Some(n) => diff.new_text matches Some(t) && t@ == text_of(n), None => diff.new_text is None })
        &&& exists|script: Seq<Step>, runs: Seq<(int, int)>|
            is_script(script, side_lines(old), side_lines(new)) && hunks_of(diff.hunks@, script, runs, side_lines(old), side_lines(new))
                && ((side_lines(old).len() + 1) * (side_lines(new).len() + 1) <= usize::MAX ==> keeps_the_most(
                script,
                side_lines(old),
                side_lines(new),
            ))
        &&& (side_lines(old).len() + 1) * (side_lines(new).len() + 1) <= usize::MAX ==> exists|runs: Seq<(int, int)>|
            hunks_of(diff.hunks@, diff_script(side_lines(old), side_lines(new)), runs, side_lines(old), side_lines(new))
    }
}

/// The lines of one side of a diff; a side that is not there has none.
pub open spec fn side_lines(side: Option<Seq<u8>>) -> Seq<Seq<char>> {
    match side {
        Some(bytes) => blob_lines(bytes),
        None => seq![],
    }
}

/// The diff between two texts.
///
/// Either side may be missing, which is a file added or taken away. Lines are numbered in a
/// `u32`, so a side that is text has fewer lines than that holds.
pub fn between(path: &str, old: Option<&[u8]>, new: Option<&[u8]>) -> (out: FileDiff)
    requires
        sides_numbered(old, new),
    ensures
        diff_between(out, path@, match old { Some(o) => Some(o@), None => None }, match new { Some(n) => Some(n@), None => None }),
        // A file that did not change has no hunks.
        old matches Some(o) && new matches Some(n) && o@ == n@ ==> out.hunks@.len() == 0,
{
    let old_binary = match old { Some(o) => is_binary(o), None => false };
    let new_binary = match new { Some(n) => is_binary(n), None => false };
    let differs = !same_sides(old, new);
    if old_binary || new_binary {
        return FileDiff {
            path: path.to_owned(),
            from: None,
            hunks: Vec::new(),
            binary: true,
            differs,
            old_text: None,
            new_text: None,
        };
    }
    let old_text = match old { Some(o) => Some(lossy(o)), None => None };
    let new_text = match new { Some(n) => Some(lossy(n)), None => None };
    let old_lines = match old { Some(o) => lines_of(o), None => Vec::new() };
    let new_lines = match new { Some(n) => lines_of(n), None => Vec::new() };
    let ghost ob = match old { Some(o) => o@, None => Seq::<u8>::empty() };
    let ghost nb = match new { Some(n) => n@, None => Seq::<u8>::empty() };
    assert(texts(old_lines@) =~= blob_lines(ob));
    assert(texts(new_lines@) =~= blob_lines(nb));
    assert(old_lines@.len() == texts(old_lines@).len());
    assert(new_lines@.len() == texts(new_lines@).len());
    let hunks = hunks_between(old_lines.as_slice(), new_lines.as_slice());
    let out = FileDiff { path: path.to_owned(), from: None, hunks, binary: false, differs, old_text, new_text };
    assert(out.hunks@ == hunks@);
    proof {
        let os: Option<Seq<u8>> = match old { Some(o) => Some(o@), None => None };
        let ns: Option<Seq<u8>> = match new { Some(n) => Some(n@), None => None };
        assert(blob_lines(ob) == side_lines(os));
        assert(blob_lines(nb) == side_lines(ns));
        assert(match os { Some(o) => out.old_text matches Some(t) && t@ == text_of(o), None => out.old_text is None });
        assert(match ns { Some(n) => out.new_text matches Some(t) && t@ == text_of(n), None => out.new_text is None });
        let (sc, rn) = choose|script: Seq<Step>, runs: Seq<(int, int)>|
            is_script(script, texts(old_lines@), texts(new_lines@)) && hunks_of(hunks@, script, runs, texts(old_lines@), texts(new_lines@));
        assert(is_script(sc, blob_lines(ob), blob_lines(nb)) && hunks_of(out.hunks@, sc, rn, blob_lines(ob), blob_lines(nb)));
        assert(diff_between(out, path@, os, ns));
    }
    out
}

/// Whether two runs of bytes are the same.
fn same_bytes(a: &[u8], b: &[u8]) -> (out: bool)
    ensures
        out == (a@ == b@),
{
    if a.len() != b.len() {
        return false;
    }
    let mut i: usize = 0;
    while i < a.len()
        invariant
            i <= a@.len(),
            a@.len() == b@.len(),
            forall|j: int| 0 <= j < i ==> a@[j] == b@[j],
        decreases a.len() - i,
    {
        if a[i] != b[i] {
            assert(a@[i as int] != b@[i as int]);
            return false;
        }
        i = i + 1;
    }
    assert(a@ =~= b@);
    true
}

/// Whether two sides are the same: both missing, or both there with the same bytes.
fn same_sides(old: Option<&[u8]>, new: Option<&[u8]>) -> (out: bool)
    ensures
        out == (match old { Some(o) => Some(o@), None => None::<Seq<u8>> } == match new {
            Some(n) => Some(n@),
            None => None::<Seq<u8>>,
        }),
{
    match (old, new) {
        (None, None) => true,
        (Some(a), Some(b)) => same_bytes(a, b),
        _ => false,
    }
}

/// Whether one of two sides is binary, which a diff does not draw line by line.
pub open spec fn either_binary(old: Option<&[u8]>, new: Option<&[u8]>) -> bool {
    (old matches Some(o) && spec_is_binary(o@)) || (new matches Some(n) && spec_is_binary(n@))
}

/// Whether the lines of two sides can be numbered in a `u32`, as a diff drawn line by line needs;
/// binary sides are not numbered.
pub open spec fn sides_numbered(old: Option<&[u8]>, new: Option<&[u8]>) -> bool {
    either_binary(old, new) || ((old matches Some(o) ==> blob_lines(o@).len() < u32::MAX) && (new matches Some(n)
        ==> blob_lines(n@).len() < u32::MAX))
}

/// The diff between two sides of a file, when their lines can be numbered; `None` for a text
/// side with more lines than a `u32` numbers.
pub fn checked_between(path: &str, old: Option<&[u8]>, new: Option<&[u8]>) -> (out: Option<FileDiff>)
    ensures
        out is Some <==> sides_numbered(old, new),
        out matches Some(d) ==> diff_between(
            d,
            path@,
            match old { Some(o) => Some(o@), None => None },
            match new { Some(n) => Some(n@), None => None },
        ),
{
    let old_binary = match old { Some(o) => is_binary(o), None => false };
    let new_binary = match new { Some(n) => is_binary(n), None => false };
    let old_fits = match old { Some(o) => blob_lines_fit(o), None => true };
    let new_fits = match new { Some(n) => blob_lines_fit(n), None => true };
    if old_binary || new_binary || (old_fits && new_fits) {
        Some(between(path, old, new))
    } else {
        None
    }
}

/// Whether the lines of a blob can be numbered in a `u32`, which is what a diff of it needs.
pub fn blob_lines_fit(bytes: &[u8]) -> (out: bool)
    ensures
        out == (blob_lines(bytes@).len() < u32::MAX),
{
    let lines = lines_of(bytes);
    assert(texts(lines@).len() == lines@.len());
    lines.len() < u32::MAX as usize
}

/// Whether `diffs` are in order of their paths, files of the same path side by side.
pub open spec fn diffs_in_path_order(diffs: Seq<FileDiff>) -> bool {
    forall|i: int, j: int| 0 <= i < j < diffs.len() ==> !text_before((#[trigger] diffs[j]).path@, (#[trigger] diffs[i]).path@)
}

/// The diffs in `diffs` of the file at `path`, in order.
pub open spec fn diffs_at(diffs: Seq<FileDiff>, path: Seq<char>) -> Seq<FileDiff> {
    diffs.filter(at_path(path))
}

/// Whether a diff is of the file at `path`.
pub open spec fn at_path(path: Seq<char>) -> spec_fn(FileDiff) -> bool {
    |d: FileDiff| d.path@ == path
}

/// A diff put in among sorted ones after every diff not after it, of a path none of the later
/// ones has, keeps each path's diffs in order with the new one last.
proof fn lemma_inserted_at(before: Seq<FileDiff>, p: int, x: FileDiff, q: Seq<char>)
    requires
        0 <= p <= before.len(),
        forall|j: int| p <= j < before.len() ==> (#[trigger] before[j]).path@ != x.path@,
    ensures
        diffs_at(before.insert(p, x), q) == if x.path@ == q { diffs_at(before, q).push(x) } else { diffs_at(before, q) },
{
    let pred = at_path(q);
    let front = before.take(p);
    let back = before.skip(p);
    assert(before =~= front + back);
    assert(before.insert(p, x) =~= front.push(x) + back);
    Seq::filter_distributes_over_add(front, back, pred);
    Seq::filter_distributes_over_add(front.push(x), back, pred);
    front.lemma_filter_push(x, pred);
    if x.path@ == q {
        assert(back.all(|d: FileDiff| !pred(d))) by {
            assert forall|j: int| 0 <= j < back.len() implies !pred(#[trigger] back[j]) by {
                assert(back[j] == before[p + j]);
            }
        }
        back.lemma_all_neg_filter_empty(pred);
        assert(back.filter(pred) =~= Seq::<FileDiff>::empty());
        assert(front.filter(pred).push(x) + back.filter(pred) =~= (front.filter(pred) + back.filter(pred)).push(x));
    }
}

/// The diffs of the files a commit touched, in order of their paths; diffs of one path keep the
/// order they were found in.
pub fn in_path_order(found: Vec<FileDiff>) -> (out: Vec<FileDiff>)
    ensures
        diffs_in_path_order(out@),
        out@.to_multiset() == found@.to_multiset(),
        forall|path: Seq<char>| #[trigger] diffs_at(out@, path) == diffs_at(found@, path),
{
    let mut out: Vec<FileDiff> = Vec::new();
    let mut rest = found;
    let ghost whole = rest@;
    let n = rest.len();
    let mut k: usize = 0;
    assert(rest@ =~= whole.skip(0));
    assert(out@.to_multiset() =~= whole.take(0).to_multiset()) by {
        assert(whole.take(0) =~= Seq::<FileDiff>::empty());
    }
    while k < n
        invariant
            k <= n,
            n == whole.len(),
            rest@ == whole.skip(k as int),
            diffs_in_path_order(out@),
            out@.to_multiset() == whole.take(k as int).to_multiset(),
            forall|path: Seq<char>| #[trigger] diffs_at(out@, path) == diffs_at(whole.take(k as int), path),
        decreases n - k,
    {
        assert(rest@[0] == whole[k as int]);
        let x = rest.remove(0);
        assert(rest@ =~= whole.skip(k + 1));
        let ghost before = out@;
        let mut p: usize = 0;
        while p < out.len() && !text_less(x.path.as_str(), out[p].path.as_str())
            invariant
                p <= out@.len(),
                out@ == before,
                forall|i: int| 0 <= i < p ==> !text_before(x.path@, (#[trigger] before[i]).path@),
            decreases out.len() - p,
        {
            p = p + 1;
        }
        out.insert(p, x);
        proof {
            let now = out@;
            assert(now =~= before.insert(p as int, x));
            assert forall|i: int, j: int| 0 <= i < j < now.len() implies !text_before(
                (#[trigger] now[j]).path@,
                (#[trigger] now[i]).path@,
            ) by {
                if j < p {
                    assert(now[i] == before[i] && now[j] == before[j]);
                } else if j == p {
                    assert(now[i] == before[i]);
                } else if i < p {
                    assert(now[i] == before[i] && now[j] == before[j - 1]);
                } else if i == p {
                    assert(now[j] == before[j - 1]);
                    lemma_text_order(before[j - 1].path@, x.path@, before[p as int].path@);
                    lemma_text_order(before[p as int].path@, x.path@, x.path@);
                } else {
                    assert(now[i] == before[i - 1] && now[j] == before[j - 1]);
                }
            }
            vstd::seq_lib::to_multiset_insert(before, p as int, x);
            assert(whole.take(k + 1) =~= whole.take(k as int).push(x));
            assert forall|j: int| p <= j < before.len() implies (#[trigger] before[j]).path@ != x.path@ by {
                assert(text_before(x.path@, before[p as int].path@));
                if j > p {
                    assert(!text_before(before[j].path@, before[p as int].path@));
                    lemma_text_order(before[j].path@, before[p as int].path@, x.path@);
                    lemma_text_order(x.path@, before[p as int].path@, before[j].path@);
                }
                lemma_text_order(x.path@, x.path@, x.path@);
            }
            assert forall|path: Seq<char>| #[trigger] diffs_at(out@, path) == diffs_at(whole.take(k + 1), path) by {
                lemma_inserted_at(before, p as int, x, path);
                whole.take(k as int).lemma_filter_push(x, at_path(path));
            }
            vstd::seq_lib::to_multiset_build(whole.take(k as int), x);
        }
        k = k + 1;
    }
    assert(whole.take(n as int) =~= whole);
    out
}

} // verus!
