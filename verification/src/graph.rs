//! Laying a history out as lines and dots.
//!
//! A commit graph drawn as a picture is a scheduling problem: each commit gets a *lane*, and the
//! lines between rows say which commit came from which. This works it out from nothing but the
//! commits and their parents.
//!
//! Walk newest to oldest, keeping a list of lanes. Each lane holds the commit it is waiting for.
//! For each commit:
//!
//! 1. Find the lanes waiting for it. The leftmost is where its dot goes; every other one merges
//!    into that lane and is freed.
//! 2. If no lane was waiting, which happens for a branch tip, take the leftmost free lane.
//! 3. Put the commit's first parent in its own lane, and every other parent in the lane already
//!    waiting for it or else a fresh one beside it.
//!
//! The spec functions below say exactly that, one commit at a time; [`lay_out`] is proved to
//! follow them, and the laws at the end are proved of them.

use vstd::prelude::*;

use crate::log::Commit;

verus! {

/// A line between one row and the next.
#[derive(Clone, Copy, PartialEq, Eq, Structural, Debug)]
pub struct Edge {
    /// Which lane it leaves this row in.
    pub from: usize,
    /// Which lane it arrives in on the row below.
    pub to: usize,
}

/// One commit, placed.
#[derive(Clone, Debug)]
pub struct Row {
    /// Which commit.
    pub id: String,
    /// Which lane its dot is in.
    pub lane: usize,
    /// The lines running from this row to the next, ordered by where they leave and then by
    /// where they arrive, each once.
    pub edges: Vec<Edge>,
    /// How many lanes are in use here, which is how wide the drawing has to be.
    pub width: usize,
}

/// Lanes as the spec sees them: what each one is waiting for, `None` for a free one.
pub open spec fn lanes_of(lanes: Seq<Option<String>>) -> Seq<Option<Seq<char>>> {
    lanes.map_values(|held: Option<String>| match held {
        Some(s) => Some(s@),
        None => None,
    })
}

/// The first lane holding `want`, or the number of lanes when none does.
pub open spec fn first_index(lanes: Seq<Option<Seq<char>>>, want: Option<Seq<char>>) -> int
    decreases lanes.len(),
{
    if lanes.len() == 0 {
        0
    } else {
        let before = first_index(lanes.drop_last(), want);
        if before < lanes.len() - 1 {
            before
        } else if lanes.last() == want {
            lanes.len() - 1
        } else {
            lanes.len() as int
        }
    }
}

/// `first_index` is the first lane holding what is wanted, or past the end.
pub proof fn lemma_first_index(lanes: Seq<Option<Seq<char>>>, want: Option<Seq<char>>)
    ensures
        0 <= first_index(lanes, want) <= lanes.len(),
        first_index(lanes, want) < lanes.len() ==> lanes[first_index(lanes, want)] == want,
        forall|j: int| 0 <= j < first_index(lanes, want) ==> lanes[j] != want,
    decreases lanes.len(),
{
    if lanes.len() > 0 {
        lemma_first_index(lanes.drop_last(), want);
        assert forall|j: int| 0 <= j < first_index(lanes, want) implies lanes[j] != want by {
            if j < lanes.len() - 1 {
                assert(lanes[j] == lanes.drop_last()[j]);
            }
        }
    }
}

/// `lanes` with a free one added at the end when `at` is one past it.
pub open spec fn grown(lanes: Seq<Option<Seq<char>>>, at: int) -> Seq<Option<Seq<char>>> {
    if at == lanes.len() {
        lanes.push(None)
    } else {
        lanes
    }
}

/// Where the dot of commit `id` goes: the leftmost lane waiting for it, else the leftmost free
/// lane, else a new one.
pub open spec fn dot_lane(lanes: Seq<Option<Seq<char>>>, id: Seq<char>) -> int {
    let waiting = first_index(lanes, Some(id));
    if waiting < lanes.len() {
        waiting
    } else {
        first_index(lanes, None)
    }
}

/// `lanes` with every lane that waited for `id`, and `lane`, freed.
pub open spec fn cleared(lanes: Seq<Option<Seq<char>>>, id: Seq<char>, lane: int) -> Seq<Option<Seq<char>>> {
    Seq::new(lanes.len(), |i: int| if lanes[i] == Some(id) || i == lane { None } else { lanes[i] })
}

/// The lanes after placing `parents` of a commit in `lane`, and the lane each parent went to.
pub open spec fn placed(lanes: Seq<Option<Seq<char>>>, lane: int, parents: Seq<Seq<char>>) -> (
    Seq<Option<Seq<char>>>,
    Seq<int>,
)
    decreases parents.len(),
{
    if parents.len() == 0 {
        (lanes, seq![])
    } else {
        let before = placed(lanes, lane, parents.drop_last());
        let held = before.0;
        let targets = before.1;
        let parent = parents.last();
        if parents.len() == 1 {
            (held.update(lane, Some(parent)), seq![lane])
        } else {
            let existing = first_index(held, Some(parent));
            if existing < held.len() {
                (held, targets.push(existing))
            } else {
                let fresh = first_index(held, None);
                (grown(held, fresh).update(fresh, Some(parent)), targets.push(fresh))
            }
        }
    }
}

/// How many lanes are waiting for something.
pub open spec fn busy(lanes: Seq<Option<Seq<char>>>) -> int
    decreases lanes.len(),
{
    if lanes.len() == 0 {
        0
    } else {
        busy(lanes.drop_last()) + if lanes.last() is Some { 1int } else { 0int }
    }
}

/// `lanes` without the free ones at the right-hand end.
pub open spec fn trimmed(lanes: Seq<Option<Seq<char>>>) -> Seq<Option<Seq<char>>>
    decreases lanes.len(),
{
    if lanes.len() > 0 && lanes.last() is None {
        trimmed(lanes.drop_last())
    } else {
        lanes
    }
}

/// The lanes just after a commit of `shape` is placed, and where its parents went.
pub open spec fn placed_row(lanes: Seq<Option<Seq<char>>>, shape: (Seq<char>, Seq<Seq<char>>)) -> (
    Seq<Option<Seq<char>>>,
    Seq<int>,
) {
    let lane = dot_lane(lanes, shape.0);
    placed(cleared(grown(lanes, lane), shape.0, lane), lane, shape.1)
}

/// How wide the row for a commit of `shape` is, which is how wide the drawing has to be there:
/// at least the lanes in use after it, enough for its own dot, and enough for the rightmost lane
/// still in use after it, where a line below the row runs.
pub open spec fn row_width(lanes: Seq<Option<Seq<char>>>, shape: (Seq<char>, Seq<Seq<char>>)) -> int {
    let lane = dot_lane(lanes, shape.0);
    let after = placed_row(lanes, shape).0;
    let n = busy(after);
    let reach = trimmed(after).len() as int;
    let wide = if n > lane + 1 { n } else { lane + 1 };
    if reach > wide { reach } else { wide }
}

/// A lane in use stays inside what trimming the free lanes off the end leaves.
proof fn lemma_trimmed_keeps(lanes: Seq<Option<Seq<char>>>, i: int)
    requires
        0 <= i < lanes.len(),
        lanes[i] is Some,
    ensures
        i < trimmed(lanes).len(),
    decreases lanes.len(),
{
    if lanes.last() is None {
        assert(i < lanes.len() - 1);
        assert(lanes.drop_last()[i] == lanes[i]);
        lemma_trimmed_keeps(lanes.drop_last(), i);
    }
}

/// Placing parents only ever fills lanes: every lane in use stays in use, and every parent's
/// lane is in use afterwards.
proof fn lemma_placed_fills(lanes: Seq<Option<Seq<char>>>, lane: int, parents: Seq<Seq<char>>)
    requires
        0 <= lane < lanes.len(),
    ensures
        placed(lanes, lane, parents).0.len() >= lanes.len(),
        forall|i: int| 0 <= i < lanes.len() && lanes[i] is Some ==> (#[trigger] placed(lanes, lane, parents).0[i]) is Some,
        forall|k: int|
            0 <= k < placed(lanes, lane, parents).1.len() ==> 0 <= #[trigger] placed(lanes, lane, parents).1[k]
                < placed(lanes, lane, parents).0.len() && placed(lanes, lane, parents).0[placed(
                lanes,
                lane,
                parents,
            ).1[k]] is Some,
    decreases parents.len(),
{
    if parents.len() > 0 {
        let rest = parents.drop_last();
        lemma_placed_fills(lanes, lane, rest);
        let before = placed(lanes, lane, rest);
        let held = before.0;
        let parent = parents.last();
        if parents.len() > 1 {
            lemma_first_index(held, Some(parent));
            lemma_first_index(held, None);
        }
        let after = placed(lanes, lane, parents);
        assert forall|k: int| 0 <= k < after.1.len() implies 0 <= #[trigger] after.1[k] < after.0.len()
            && after.0[after.1[k]] is Some by {
            if k < before.1.len() && parents.len() > 1 {
                assert(after.1[k] == before.1[k]);
            }
        }
    }
}

/// Every line below a row arrives inside the row's width.
pub proof fn lemma_edges_fit(lanes: Seq<Option<Seq<char>>>, shape: (Seq<char>, Seq<Seq<char>>), e: Edge)
    requires
        is_row_edge(lanes, shape, e),
    ensures
        e.to < row_width(lanes, shape),
        dot_lane(lanes, shape.0) < row_width(lanes, shape),
{
    let lane = dot_lane(lanes, shape.0);
    lemma_first_index(lanes, Some(shape.0));
    lemma_first_index(lanes, None);
    let c = cleared(grown(lanes, lane), shape.0, lane);
    lemma_placed_fills(c, lane, shape.1);
    let after = placed_row(lanes, shape);
    if parent_edge(lane, after.1, e) {
        let k = choose|k: int| 0 <= k < after.1.len() && after.1[k] == e.to as int;
        assert(after.0[after.1[k]] is Some);
        lemma_trimmed_keeps(after.0, e.to as int);
    } else if through_edge(after.0, after.1, e) {
        lemma_trimmed_keeps(after.0, e.to as int);
    }
}

/// A line from the dot to where one of its parents went.
pub open spec fn parent_edge(lane: int, targets: Seq<int>, e: Edge) -> bool {
    e.from == lane && targets.contains(e.to as int)
}

/// A line passing straight through: a lane still waiting that no parent went to.
pub open spec fn through_edge(held: Seq<Option<Seq<char>>>, targets: Seq<int>, e: Edge) -> bool {
    e.from == e.to && e.to < held.len() && held[e.to as int] is Some && !targets.contains(e.to as int)
}

/// A line from another lane that was waiting for the same commit, bending into its dot.
pub open spec fn merge_edge(lanes: Seq<Option<Seq<char>>>, id: Seq<char>, lane: int, e: Edge) -> bool {
    e.to == lane && e.from < lanes.len() && lanes[e.from as int] == Some(id) && e.from != lane
}

/// The lines below the row for a commit of `shape`.
pub open spec fn is_row_edge(lanes: Seq<Option<Seq<char>>>, shape: (Seq<char>, Seq<Seq<char>>), e: Edge) -> bool {
    let lane = dot_lane(lanes, shape.0);
    let after = placed_row(lanes, shape);
    ||| parent_edge(lane, after.1, e)
    ||| through_edge(after.0, after.1, e)
    ||| merge_edge(grown(lanes, lane), shape.0, lane, e)
}

/// `a` comes before `b`: by where they leave, then by where they arrive.
pub open spec fn edge_before(a: Edge, b: Edge) -> bool {
    a.from < b.from || (a.from == b.from && a.to < b.to)
}

/// Each edge once, in order.
pub open spec fn in_order(edges: Seq<Edge>) -> bool {
    forall|i: int, j: int| 0 <= i < j < edges.len() ==> edge_before(#[trigger] edges[i], #[trigger] edges[j])
}

/// The lanes after a commit of `shape`, with the free ones at the right-hand end dropped.
pub open spec fn lanes_after(lanes: Seq<Option<Seq<char>>>, shape: (Seq<char>, Seq<Seq<char>>)) -> Seq<Option<Seq<char>>> {
    trimmed(placed_row(lanes, shape).0)
}

/// Whether `row` is what a commit of `shape` lays out as, with `lanes` as they were before it.
pub open spec fn is_row(row: Row, lanes: Seq<Option<Seq<char>>>, shape: (Seq<char>, Seq<Seq<char>>)) -> bool {
    &&& row.id@ == shape.0
    &&& row.lane == dot_lane(lanes, shape.0)
    &&& row.width == row_width(lanes, shape)
    &&& in_order(row.edges@)
    &&& forall|e: Edge| #[trigger] row.edges@.contains(e) <==> is_row_edge(lanes, shape, e)
}

/// What the graph reads of each commit.
pub open spec fn shapes_of(commits: Seq<Commit>) -> Seq<(Seq<char>, Seq<Seq<char>>)> {
    commits.map_values(|c: Commit| c.shape())
}

/// The lanes before the `k`th commit is placed.
pub open spec fn lanes_before(shapes: Seq<(Seq<char>, Seq<Seq<char>>)>, k: int) -> Seq<Option<Seq<char>>>
    decreases k,
{
    if k <= 0 {
        seq![]
    } else {
        lanes_after(lanes_before(shapes, k - 1), shapes[k - 1])
    }
}

/// The first lane holding `want`.
fn holding(lanes: &Vec<Option<String>>, want: &String) -> (at: usize)
    ensures
        at == first_index(lanes_of(lanes@), Some(want@)),
{
    let ghost l = lanes_of(lanes@);
    let mut i: usize = 0;
    while i < lanes.len()
        invariant
            i <= lanes@.len(),
            l == lanes_of(lanes@),
            first_index(l.take(i as int), Some(want@)) == i,
        decreases lanes.len() - i,
    {
        assert(l.take(i + 1).drop_last() =~= l.take(i as int));
        let found = match &lanes[i] {
            Some(held) => *held == *want,
            None => false,
        };
        if found {
            proof {
                lemma_first_index(l.take(i as int), Some(want@));
                lemma_first_index(l, Some(want@));
                assert(forall|j: int| 0 <= j < i ==> l[j] == #[trigger] l.take(i as int)[j]);
                assert(l[i as int] == Some(want@));
                let fi = first_index(l, Some(want@));
                if fi < i {
                    assert(l.take(i as int)[fi] == l[fi]);
                }
            }
            return i;
        }
        i = i + 1;
    }
    assert(l.take(i as int) =~= l);
    i
}

/// The leftmost free lane, making one if every lane is busy.
fn free_lane(lanes: &mut Vec<Option<String>>) -> (at: usize)
    ensures
        at == first_index(lanes_of(old(lanes)@), None),
        lanes_of(final(lanes)@) == grown(lanes_of(old(lanes)@), at as int),
        at < final(lanes)@.len(),
{
    let ghost l = lanes_of(lanes@);
    let mut i: usize = 0;
    while i < lanes.len()
        invariant
            i <= lanes@.len(),
            l == lanes_of(lanes@),
            first_index(l.take(i as int), None) == i,
        decreases lanes.len() - i,
    {
        assert(l.take(i + 1).drop_last() =~= l.take(i as int));
        if lanes[i].is_none() {
            proof {
                lemma_first_index(l.take(i as int), None);
                lemma_first_index(l, None);
                assert(forall|j: int| 0 <= j < i ==> l[j] == #[trigger] l.take(i as int)[j]);
                assert(l[i as int] == None::<Seq<char>>);
                let fi = first_index(l, None);
                if fi < i {
                    assert(l.take(i as int)[fi] == l[fi]);
                }
            }
            return i;
        }
        i = i + 1;
    }
    assert(l.take(i as int) =~= l);
    lanes.push(None);
    assert(lanes_of(lanes@) =~= l.push(None));
    i
}

/// Adds `e` to `edges`, keeping them in order and each once.
fn insert_edge(edges: &mut Vec<Edge>, e: Edge)
    requires
        in_order(old(edges)@),
    ensures
        in_order(final(edges)@),
        forall|x: Edge| #[trigger] final(edges)@.contains(x) <==> old(edges)@.contains(x) || x == e,
{
    let mut p: usize = 0;
    while p < edges.len() && (edges[p].from < e.from || (edges[p].from == e.from && edges[p].to < e.to))
        invariant
            p <= edges@.len(),
            forall|i: int| 0 <= i < p ==> edge_before(#[trigger] edges@[i], e),
        decreases edges.len() - p,
    {
        p = p + 1;
    }
    if p < edges.len() && edges[p] == e {
        return;
    }
    let ghost before = edges@;
    edges.insert(p, e);
    proof {
        assert forall|i: int, j: int| 0 <= i < j < edges@.len() implies edge_before(
            #[trigger] edges@[i],
            #[trigger] edges@[j],
        ) by {
            if j < p {
                assert(edges@[i] == before[i] && edges@[j] == before[j]);
            } else if j == p {
                assert(edges@[i] == before[i]);
            } else if i < p {
                assert(edges@[i] == before[i] && edges@[j] == before[j - 1]);
                assert(edge_before(before[i], e));
                assert(edge_before(before[p as int], before[j - 1]) || p == j - 1);
            } else if i == p {
                assert(edges@[j] == before[j - 1]);
                assert(edge_before(before[p as int], before[j - 1]) || p == j - 1);
            } else {
                assert(edges@[i] == before[i - 1] && edges@[j] == before[j - 1]);
            }
        }
        assert forall|x: Edge| #[trigger] edges@.contains(x) <==> before.contains(x) || x == e by {
            if before.contains(x) {
                let k = choose|k: int| 0 <= k < before.len() && before[k] == x;
                if k < p {
                    assert(edges@[k] == x);
                } else {
                    assert(edges@[k + 1] == x);
                }
            }
            if x == e {
                assert(edges@[p as int] == e);
            }
            if edges@.contains(x) {
                let k = choose|k: int| 0 <= k < edges@.len() && edges@[k] == x;
                if k < p {
                    assert(before[k] == x);
                } else if k > p {
                    assert(before[k - 1] == x);
                }
            }
        }
    }
}

/// Whether `held` is waiting for `id`.
fn waits_for(held: &Option<String>, id: &String) -> (out: bool)
    ensures
        out == (match held {
            Some(s) => s@ == id@,
            None => false,
        }),
{
    match held {
        Some(s) => *s == *id,
        None => false,
    }
}

/// Whether `targets` holds `x`.
fn holds_index(targets: &Vec<usize>, x: usize) -> (out: bool)
    ensures
        out == targets@.map_values(|t: usize| t as int).contains(x as int),
{
    let ghost tp = targets@.map_values(|t: usize| t as int);
    let mut i: usize = 0;
    while i < targets.len()
        invariant
            i <= targets@.len(),
            tp == targets@.map_values(|t: usize| t as int),
            forall|j: int| 0 <= j < i ==> tp[j] != x as int,
        decreases targets.len() - i,
    {
        if targets[i] == x {
            assert(tp[i as int] == x as int);
            return true;
        }
        i = i + 1;
    }
    false
}

/// How many lanes are waiting for something.
fn count_busy(lanes: &Vec<Option<String>>) -> (n: usize)
    ensures
        n == busy(lanes_of(lanes@)),
{
    let ghost l = lanes_of(lanes@);
    let mut n: usize = 0;
    let mut i: usize = 0;
    while i < lanes.len()
        invariant
            i <= lanes@.len(),
            l == lanes_of(lanes@),
            n == busy(l.take(i as int)),
            n <= i,
        decreases lanes.len() - i,
    {
        assert(l.take(i + 1).drop_last() =~= l.take(i as int));
        if lanes[i].is_some() {
            n = n + 1;
        }
        i = i + 1;
    }
    assert(l.take(i as int) =~= l);
    n
}

/// Places one commit: works out its row, and moves `lanes` on to what they are after it.
fn place(lanes: &mut Vec<Option<String>>, commit: &Commit) -> (row: Row)
    ensures
        is_row(row, lanes_of(old(lanes)@), commit.shape()),
        lanes_of(final(lanes)@) == lanes_after(lanes_of(old(lanes)@), commit.shape()),
{
    let ghost l0 = lanes_of(lanes@);
    let ghost id = commit.id@;
    let ghost parents = commit.shape().1;
    let waiting = holding(lanes, &commit.id);
    let lane = if waiting < lanes.len() {
        waiting
    } else {
        free_lane(lanes)
    };
    proof {
        lemma_first_index(l0, Some(id));
        lemma_first_index(l0, None);
    }
    let ghost g = lanes_of(lanes@);
    assert(lane == dot_lane(l0, id));
    assert(g == grown(l0, lane as int));

    // The lines from the other lanes that waited for this commit.
    let mut edges: Vec<Edge> = Vec::new();
    let mut i: usize = 0;
    while i < lanes.len()
        invariant
            i <= lanes@.len(),
            g == lanes_of(lanes@),
            id == commit.id@,
            lane < lanes@.len(),
            in_order(edges@),
            forall|e: Edge| #[trigger] edges@.contains(e) <==> merge_edge(g, id, lane as int, e) && e.from < i,
        decreases lanes.len() - i,
    {
        if i != lane && waits_for(&lanes[i], &commit.id) {
            assert(g[i as int] == Some(id));
            insert_edge(&mut edges, Edge { from: i, to: lane });
        } else {
            assert(g[i as int] != Some(id) || i == lane);
        }
        i = i + 1;
    }

    // This commit's lane and every other lane waiting for it are free again.
    let ghost c = cleared(g, id, lane as int);
    let mut i: usize = 0;
    while i < lanes.len()
        invariant
            i <= lanes@.len(),
            lanes@.len() == g.len(),
            id == commit.id@,
            c == cleared(g, id, lane as int),
            forall|j: int| 0 <= j < i ==> #[trigger] lanes_of(lanes@)[j] == c[j],
            forall|j: int| i <= j < lanes@.len() ==> #[trigger] lanes_of(lanes@)[j] == g[j],
        decreases lanes.len() - i,
    {
        let ghost before = lanes_of(lanes@);
        assert(before[i as int] == g[i as int]);
        if i == lane || waits_for(&lanes[i], &commit.id) {
            lanes[i] = None;
            assert(lanes_of(lanes@) =~= before.update(i as int, None));
        }
        assert(lanes_of(lanes@)[i as int] == c[i as int]);
        i = i + 1;
    }
    assert(lanes_of(lanes@) =~= c);

    // Where each parent goes: the first in this lane, the others where they are already awaited
    // or in a fresh lane.
    let mut targets: Vec<usize> = Vec::new();
    let mut p: usize = 0;
    assert(parents.take(0) =~= Seq::<Seq<char>>::empty());
    assert(targets@.map_values(|t: usize| t as int) =~= Seq::<int>::empty());
    while p < commit.parents.len()
        invariant
            p <= commit.parents@.len(),
            parents == commit.parents@.map_values(|s: String| s@),
            placed(c, lane as int, parents.take(p as int)).0 == lanes_of(lanes@),
            placed(c, lane as int, parents.take(p as int)).1 == targets@.map_values(|t: usize| t as int),
            lane < lanes@.len(),
            in_order(edges@),
            forall|e: Edge|
                #[trigger] edges@.contains(e) <==> merge_edge(g, id, lane as int, e) || parent_edge(
                    lane as int,
                    targets@.map_values(|t: usize| t as int),
                    e,
                ),
        decreases commit.parents.len() - p,
    {
        assert(parents.take(p + 1).drop_last() =~= parents.take(p as int));
        let ghost prior = lanes_of(lanes@);
        let ghost tprior = targets@.map_values(|t: usize| t as int);
        let parent = &commit.parents[p];
        assert(parents.take(p + 1).last() == parent@);
        let target = if p == 0 {
            lanes[lane] = Some(parent.clone());
            assert(lanes_of(lanes@) =~= prior.update(lane as int, Some(parent@)));
            lane
        } else {
            let existing = holding(lanes, parent);
            if existing < lanes.len() {
                existing
            } else {
                let fresh = free_lane(lanes);
                let ghost widened = lanes_of(lanes@);
                lanes[fresh] = Some(parent.clone());
                assert(lanes_of(lanes@) =~= widened.update(fresh as int, Some(parent@)));
                fresh
            }
        };
        targets.push(target);
        let ghost tnow = targets@.map_values(|t: usize| t as int);
        assert(tnow =~= tprior.push(target as int));
        if p == 0 {
            assert(tnow =~= seq![lane as int]);
        }
        insert_edge(&mut edges, Edge { from: lane, to: target });
        proof {
            assert forall|e: Edge|
                #[trigger] edges@.contains(e) <==> merge_edge(g, id, lane as int, e) || parent_edge(lane as int, tnow, e) by {
                if tnow.contains(e.to as int) && !tprior.contains(e.to as int) {
                    let k = choose|k: int| 0 <= k < tnow.len() && tnow[k] == e.to as int;
                    if k < tprior.len() {
                        assert(tprior[k] == tnow[k]);
                    }
                }
                if tprior.contains(e.to as int) {
                    let k = choose|k: int| 0 <= k < tprior.len() && tprior[k] == e.to as int;
                    assert(tnow[k] == tprior[k]);
                }
                if e.to == target {
                    assert(tnow[tprior.len() as int] == target as int);
                }
            }
        }
        p = p + 1;
    }
    assert(parents.take(parents.len() as int) =~= parents);

    // Every other lane still waiting carries straight on.
    let ghost held = lanes_of(lanes@);
    let ghost tp = targets@.map_values(|t: usize| t as int);
    let mut at: usize = 0;
    while at < lanes.len()
        invariant
            at <= lanes@.len(),
            held == lanes_of(lanes@),
            tp == targets@.map_values(|t: usize| t as int),
            in_order(edges@),
            forall|e: Edge|
                #[trigger] edges@.contains(e) <==> merge_edge(g, id, lane as int, e) || parent_edge(lane as int, tp, e)
                    || (through_edge(held, tp, e) && e.to < at),
        decreases lanes.len() - at,
    {
        if lanes[at].is_some() && !holds_index(&targets, at) {
            assert(held[at as int] is Some);
            insert_edge(&mut edges, Edge { from: at, to: at });
        } else {
            assert(held[at as int] is None || tp.contains(at as int));
        }
        at = at + 1;
    }

    let n = count_busy(lanes);
    let wide = if n > lane + 1 { n } else { lane + 1 };

    // Lanes that have fallen off the right-hand end are dropped.
    while lanes.len() > 0 && lanes[lanes.len() - 1].is_none()
        invariant
            trimmed(lanes_of(lanes@)) == trimmed(held),
        decreases lanes.len(),
    {
        let ghost before = lanes_of(lanes@);
        lanes.pop();
        assert(lanes_of(lanes@) =~= before.drop_last());
    }
    assert(trimmed(lanes_of(lanes@)) == lanes_of(lanes@));
    // The drawing has to reach the rightmost lane still in use, where a line runs below.
    let width = if lanes.len() > wide { lanes.len() } else { wide };
    Row { id: commit.id.clone(), lane, edges, width }
}

/// Trimming the free lanes off the end keeps the lanes before them as they are.
proof fn lemma_trimmed_prefix(lanes: Seq<Option<Seq<char>>>)
    ensures
        trimmed(lanes).len() <= lanes.len(),
        forall|i: int| 0 <= i < trimmed(lanes).len() ==> #[trigger] trimmed(lanes)[i] == lanes[i],
    decreases lanes.len(),
{
    if lanes.len() > 0 && lanes.last() is None {
        lemma_trimmed_prefix(lanes.drop_last());
    }
}

/// A lane in use on both sides of a row is connected across it: every lane still waiting for a
/// commit after the row has a line arriving in it, and one that no line from the row's dot
/// reaches has a straight line through the row.
pub proof fn law_waiting_lanes_run_through(lanes: Seq<Option<Seq<char>>>, shape: (Seq<char>, Seq<Seq<char>>), row: Row)
    requires
        is_row(row, lanes, shape),
    ensures
        forall|i: int|
            0 <= i < lanes_after(lanes, shape).len() && (#[trigger] lanes_after(lanes, shape)[i]) is Some ==> exists|e: Edge|
                #[trigger] row.edges@.contains(e) && e.to == i,
        forall|i: int|
            0 <= i < lanes_after(lanes, shape).len() && (#[trigger] lanes_after(lanes, shape)[i]) is Some && !(exists|e: Edge|
                #[trigger] row.edges@.contains(e) && e.from == row.lane && e.to == i) ==> row.edges@.contains(
                Edge { from: i as usize, to: i as usize },
            ),
{
    let after = placed_row(lanes, shape);
    lemma_trimmed_prefix(after.0);
    assert forall|i: int|
        0 <= i < lanes_after(lanes, shape).len() && (#[trigger] lanes_after(lanes, shape)[i]) is Some implies (exists|
        e: Edge| #[trigger] row.edges@.contains(e) && e.to == i) && ((exists|e: Edge|
        #[trigger] row.edges@.contains(e) && e.from == row.lane && e.to == i) || row.edges@.contains(
        Edge { from: i as usize, to: i as usize },
    )) by {
        assert(after.0[i] is Some);
        let lane = dot_lane(lanes, shape.0);
        if after.1.contains(i) {
            let e = Edge { from: lane as usize, to: i as usize };
            lemma_first_index(lanes, Some(shape.0));
            lemma_first_index(lanes, None);
            assert(parent_edge(lane, after.1, e));
            assert(is_row_edge(lanes, shape, e));
            assert(row.edges@.contains(e));
        } else {
            let e = Edge { from: i as usize, to: i as usize };
            assert(through_edge(after.0, after.1, e));
            assert(is_row_edge(lanes, shape, e));
            assert(row.edges@.contains(e));
        }
    }
}

/// Lays `commits` out, newest first.
///
/// The commits must be in the order they are drawn in, which is the order the history is read
/// in.
pub fn lay_out(commits: &[Commit]) -> (rows: Vec<Row>)
    ensures
        rows@.len() == commits@.len(),
        forall|k: int| 0 <= k < rows@.len() ==> (#[trigger] rows@[k]).id@ == commits@[k].id@,
        forall|k: int| 0 <= k < rows@.len() ==> (#[trigger] rows@[k]).lane < rows@[k].width,
        forall|k: int, e: Edge| 0 <= k < rows@.len() && #[trigger] rows@[k].edges@.contains(e) ==> e.to < rows@[k].width,
        forall|k: int, i: int|
            0 <= k < rows@.len() && 0 <= i < lanes_before(shapes_of(commits@), k + 1).len() && (#[trigger] lanes_before(
                shapes_of(commits@),
                k + 1,
            )[i]) is Some ==> exists|e: Edge| #[trigger] rows@[k].edges@.contains(e) && e.to == i,
        forall|k: int|
            0 <= k < rows@.len() ==> is_row(
                #[trigger] rows@[k],
                lanes_before(shapes_of(commits@), k),
                shapes_of(commits@)[k],
            ),
{
    let mut lanes: Vec<Option<String>> = Vec::new();
    let mut rows: Vec<Row> = Vec::new();
    let mut k: usize = 0;
    assert(lanes_of(lanes@) =~= Seq::<Option<Seq<char>>>::empty());
    while k < commits.len()
        invariant
            k <= commits@.len(),
            rows@.len() == k,
            lanes_of(lanes@) == lanes_before(shapes_of(commits@), k as int),
            forall|j: int|
                0 <= j < k ==> is_row(
                    #[trigger] rows@[j],
                    lanes_before(shapes_of(commits@), j),
                    shapes_of(commits@)[j],
                ),
        decreases commits.len() - k,
    {
        let row = place(&mut lanes, &commits[k]);
        assert(shapes_of(commits@)[k as int] == commits@[k as int].shape());
        rows.push(row);
        k = k + 1;
    }
    proof {
        assert forall|k: int, e: Edge| 0 <= k < rows@.len() && #[trigger] rows@[k].edges@.contains(e) implies e.to
            < rows@[k].width by {
            assert(is_row(rows@[k], lanes_before(shapes_of(commits@), k), shapes_of(commits@)[k]));
            lemma_edges_fit(lanes_before(shapes_of(commits@), k), shapes_of(commits@)[k], e);
        }
        assert forall|k: int, i: int|
            0 <= k < rows@.len() && 0 <= i < lanes_before(shapes_of(commits@), k + 1).len() && (#[trigger] lanes_before(
                shapes_of(commits@),
                k + 1,
            )[i]) is Some implies exists|e: Edge| #[trigger] rows@[k].edges@.contains(e) && e.to == i by {
            let shapes = shapes_of(commits@);
            assert(is_row(rows@[k], lanes_before(shapes, k), shapes[k]));
            law_waiting_lanes_run_through(lanes_before(shapes, k), shapes[k], rows@[k]);
            assert(lanes_before(shapes, k + 1) == lanes_after(lanes_before(shapes, k), shapes[k]));
        }
    }
    rows
}

/// How wide the whole drawing is: the widest row, or nothing for no rows.
pub fn width(rows: &[Row]) -> (out: usize)
    ensures
        forall|k: int| 0 <= k < rows@.len() ==> #[trigger] rows@[k].width <= out,
        rows@.len() == 0 ==> out == 0,
        rows@.len() > 0 ==> exists|k: int| 0 <= k < rows@.len() && #[trigger] rows@[k].width == out,
{
    let mut out: usize = 0;
    let mut i: usize = 0;
    while i < rows.len()
        invariant
            i <= rows@.len(),
            forall|k: int| 0 <= k < i ==> #[trigger] rows@[k].width <= out,
            i == 0 ==> out == 0,
            i > 0 ==> exists|k: int| 0 <= k < i && #[trigger] rows@[k].width == out,
        decreases rows.len() - i,
    {
        if rows[i].width > out || i == 0 {
            out = rows[i].width;
            assert(rows@[i as int].width == out);
        }
        i = i + 1;
    }
    out
}

/// Which colour a lane is drawn in, as an index into the theme's set of eight, cycling.
pub fn lane_tint(lane: usize) -> (out: usize)
    ensures
        out == lane % 8,
{
    lane % 8
}

/// Whether `shapes` is a straight history: each commit's only parent is the next one down, and
/// the last has at most one parent, outside what is drawn.
pub open spec fn is_straight(shapes: Seq<(Seq<char>, Seq<Seq<char>>)>) -> bool {
    &&& forall|k: int| 0 <= k < shapes.len() - 1 ==> (#[trigger] shapes[k]).1 == seq![shapes[k + 1].0]
    &&& shapes.len() > 0 ==> shapes.last().1.len() <= 1
}

/// One commit of a straight history, placed when the lanes are empty or waiting for it alone.
proof fn lemma_straight_step(lanes: Seq<Option<Seq<char>>>, shape: (Seq<char>, Seq<Seq<char>>))
    requires
        lanes == Seq::<Option<Seq<char>>>::empty() || lanes == seq![Some(shape.0)],
        shape.1.len() <= 1,
    ensures
        dot_lane(lanes, shape.0) == 0,
        row_width(lanes, shape) == 1,
        shape.1.len() == 1 ==> lanes_after(lanes, shape) == seq![Some(shape.1[0])],
{
    let id = shape.0;
    let none = Seq::<Option<Seq<char>>>::empty();
    assert(first_index(none, Some(id)) == 0);
    assert(first_index(none, None) == 0);
    if lanes.len() > 0 {
        assert(lanes.drop_last() =~= none);
        assert(lanes.last() == Some(id));
        assert(first_index(lanes, Some(id)) == 0);
    }
    let lane = dot_lane(lanes, id);
    assert(lane == 0);
    let c = cleared(grown(lanes, 0), id, 0);
    assert(c =~= seq![None]);
    assert(placed_row(lanes, shape) == placed(c, 0, shape.1));
    let after = placed_row(lanes, shape);
    if shape.1.len() == 1 {
        assert(shape.1.drop_last() =~= Seq::<Seq<char>>::empty());
        assert(placed(c, 0, shape.1.drop_last()).0 == c);
        assert(after.0 =~= seq![Some(shape.1[0])]);
        assert(after.0.drop_last() =~= none);
        assert(busy(none) == 0);
        assert(busy(after.0) == 1);
        assert(trimmed(after.0) == after.0);
    } else {
        assert(shape.1 =~= Seq::<Seq<char>>::empty());
        assert(after.0 =~= seq![None]);
        assert(after.0.drop_last() =~= none);
        assert(busy(none) == 0);
        assert(busy(after.0) == 0);
        assert(trimmed(none) == none);
        assert(trimmed(after.0) == trimmed(none));
    }
}

/// A straight history is drawn in one column: every dot in the first lane, and the drawing one
/// lane wide all the way down.
pub proof fn law_straight_history_is_one_column(shapes: Seq<(Seq<char>, Seq<Seq<char>>)>)
    requires
        is_straight(shapes),
    ensures
        forall|k: int| 0 <= k < shapes.len() ==> dot_lane(#[trigger] lanes_before(shapes, k), shapes[k].0) == 0,
        forall|k: int| 0 <= k < shapes.len() ==> row_width(#[trigger] lanes_before(shapes, k), shapes[k]) == 1,
{
    assert forall|k: int| 0 <= k < shapes.len() implies (#[trigger] lanes_before(shapes, k)
        == Seq::<Option<Seq<char>>>::empty() || lanes_before(shapes, k) == seq![Some(shapes[k].0)]) by {
        lemma_straight_lanes(shapes, k);
    }
    assert forall|k: int| 0 <= k < shapes.len() implies dot_lane(#[trigger] lanes_before(shapes, k), shapes[k].0) == 0
        && row_width(lanes_before(shapes, k), shapes[k]) == 1 by {
        lemma_straight_lanes(shapes, k);
        if k < shapes.len() - 1 {
            assert(shapes[k].1 == seq![shapes[k + 1].0]);
        }
        lemma_straight_step(lanes_before(shapes, k), shapes[k]);
    }
}

/// Before each commit of a straight history, the lanes are empty or wait for that commit alone.
proof fn lemma_straight_lanes(shapes: Seq<(Seq<char>, Seq<Seq<char>>)>, k: int)
    requires
        is_straight(shapes),
        0 <= k < shapes.len(),
    ensures
        lanes_before(shapes, k) == Seq::<Option<Seq<char>>>::empty() || lanes_before(shapes, k) == seq![Some(shapes[k].0)],
    decreases k,
{
    if k > 0 {
        lemma_straight_lanes(shapes, k - 1);
        assert(shapes[k - 1].1 == seq![shapes[k].0]);
        lemma_straight_step(lanes_before(shapes, k - 1), shapes[k - 1]);
    }
}

/// Where the parents of a commit go: one target each, the first in the commit's own lane.
proof fn lemma_placed_targets(lanes: Seq<Option<Seq<char>>>, lane: int, parents: Seq<Seq<char>>)
    ensures
        placed(lanes, lane, parents).1.len() == parents.len(),
        parents.len() > 0 ==> placed(lanes, lane, parents).1[0] == lane,
    decreases parents.len(),
{
    if parents.len() > 0 {
        lemma_placed_targets(lanes, lane, parents.drop_last());
    }
}

/// A commit's first parent carries on in the commit's own lane: the line below its dot runs
/// straight down.
pub proof fn law_first_parent_keeps_the_lane(lanes: Seq<Option<Seq<char>>>, shape: (Seq<char>, Seq<Seq<char>>))
    requires
        shape.1.len() > 0,
    ensures
        forall|e: Edge|
            e.from == dot_lane(lanes, shape.0) && e.to == dot_lane(lanes, shape.0) ==> #[trigger] is_row_edge(lanes, shape, e),
{
    let lane = dot_lane(lanes, shape.0);
    lemma_first_index(lanes, Some(shape.0));
    lemma_first_index(lanes, None);
    let c = cleared(grown(lanes, lane), shape.0, lane);
    lemma_placed_targets(c, lane, shape.1);
    let targets = placed_row(lanes, shape).1;
    assert(targets[0] == lane);
    assert(targets.contains(lane));
}

/// Where each commit is in a history, by its identifier: rustc-hash's map, held whole.
#[verifier::external_body]
pub struct CommitIndex {
    map: rustc_hash::FxHashMap<String, usize>,
}

/// What a commit index holds: each identifier, and where that commit is.
pub uninterp spec fn index_contents(index: CommitIndex) -> Map<Seq<char>, usize>;

/// An empty index.
///
/// Calls `FxHashMap::default`, which holds nothing.
#[verifier::external_body]
fn empty_index() -> (out: CommitIndex)
    ensures
        forall|id: Seq<char>| !index_contents(out).dom().contains(id),
{
    CommitIndex { map: rustc_hash::FxHashMap::default() }
}

/// Files `at` under `id`.
///
/// Calls `HashMap::insert`, which keys a `String` by its text and replaces what the key held.
#[verifier::external_body]
fn index_insert(index: &mut CommitIndex, id: &String, at: usize)
    ensures
        index_contents(*final(index)) == index_contents(*old(index)).insert(id@, at),
{
    index.map.insert(id.clone(), at);
}

/// Where the commit `id` is, read out of `index`.
///
/// Calls `HashMap::get`, which finds a `String` key by its text.
#[verifier::external_body]
fn index_get(index: &CommitIndex, id: &str) -> (out: Option<usize>)
    ensures
        index_contents(*index).dom().contains(id@) ==> out == Some(index_contents(*index)[id@]),
        !index_contents(*index).dom().contains(id@) ==> out is None,
{
    index.map.get(id).copied()
}

impl CommitIndex {
    /// Where the commit `id` is, when it is in the history.
    pub fn get(&self, id: &str) -> (out: Option<usize>)
        ensures
            index_contents(*self).dom().contains(id@) ==> out == Some(index_contents(*self)[id@]),
            !index_contents(*self).dom().contains(id@) ==> out is None,
    {
        index_get(self, id)
    }
}

/// Each identifier of `ids`, to the last place it is at.
pub open spec fn places(ids: Seq<Seq<char>>) -> Map<Seq<char>, usize>
    decreases ids.len(),
{
    if ids.len() == 0 {
        Map::empty()
    } else {
        places(ids.drop_last()).insert(ids.last(), (ids.len() - 1) as usize)
    }
}

/// An index of a history whose identifiers are all different holds each identifier, and finds
/// each commit at its own place; it holds nothing else.
pub proof fn law_an_index_finds_each_commit_at_its_place(ids: Seq<Seq<char>>)
    requires
        ids.no_duplicates(),
        ids.len() <= usize::MAX,
    ensures
        forall|i: int| 0 <= i < ids.len() ==> #[trigger] places(ids).dom().contains(ids[i]) && places(ids)[ids[i]] == i,
        forall|id: Seq<char>| #[trigger] places(ids).dom().contains(id) ==> ids.contains(id),
    decreases ids.len(),
{
    if ids.len() > 0 {
        let rest = ids.drop_last();
        assert(rest.no_duplicates());
        law_an_index_finds_each_commit_at_its_place(rest);
        assert forall|i: int| 0 <= i < ids.len() implies #[trigger] places(ids).dom().contains(ids[i]) && places(ids)[ids[i]] == i by {
            if i < ids.len() - 1 {
                assert(rest[i] == ids[i]);
                assert(places(rest).dom().contains(rest[i]));
                assert(ids[i] != ids[ids.len() - 1]);
            }
        }
        assert forall|id: Seq<char>| #[trigger] places(ids).dom().contains(id) implies ids.contains(id) by {
            if id != ids.last() {
                assert(places(rest).dom().contains(id));
                assert(rest.contains(id));
                let j = choose|j: int| 0 <= j < rest.len() && rest[j] == id;
                assert(ids[j] == id);
            } else {
                assert(ids[ids.len() - 1] == id);
            }
        }
    }
}

/// A commit map, for turning a history into rows and back: each commit's identifier, to where
/// it is in `commits`.
pub fn by_id(commits: &[Commit]) -> (out: CommitIndex)
    ensures
        index_contents(out) == places(commits@.map_values(|c: Commit| c.id@)),
{
    let ghost ids = commits@.map_values(|c: Commit| c.id@);
    let mut index = empty_index();
    let mut at: usize = 0;
    assert(ids.take(0) =~= Seq::<Seq<char>>::empty());
    assert(index_contents(index) =~= places(ids.take(0)));
    while at < commits.len()
        invariant
            at <= commits@.len(),
            ids == commits@.map_values(|c: Commit| c.id@),
            index_contents(index) == places(ids.take(at as int)),
        decreases commits.len() - at,
    {
        assert(ids.take(at + 1).drop_last() =~= ids.take(at as int));
        assert(ids.take(at + 1).last() == commits@[at as int].id@);
        index_insert(&mut index, &commits[at].id, at);
        at = at + 1;
    }
    assert(ids.take(at as int) =~= ids);
    index
}

} // verus!
