//! # Pathfinding
//!
//! A fixed 3D grid has tiles that are statically known to be blocked. While the world runs,
//! other tiles may be blocked too, but a statically blocked tile is never open. All pairs
//! shortest paths over the statically open tiles therefore bound from below the distances over
//! the tiles open at any moment, and serve A* as a tight heuristic.
use crate::frontier::{frontier_items, new_frontier, pop_min_frontier, push_frontier, Frontier};
pub use crate::all_pairs::{all_pairs_shortest_paths, AllPairsShortestPaths};
pub use crate::cost::{ext_lt, ext_sum, WithInfinity};
use crate::position::{adjacent_to, capped_hamming, neighbours, Position};
use crate::walk::{
    has_walk, index_of, is_walk, lemma_hamming_admissible, lemma_reachable_within_size,
    lemma_shortcut, reachable, reachable_within,
};
use std::collections::VecDeque;
use vstd::prelude::*;

verus! {

/// The tile that search node `i` stands for: open tile `i`, or the start at index `open.len()`.
pub open spec fn node(open: Seq<Position>, start: Position, i: int) -> Position {
    if i < open.len() {
        open[i]
    } else {
        start
    }
}

/// Every open tile adjacent to node `i` has a recorded cost at most one more than node `i`.
pub open spec fn settled(open: Seq<Position>, start: Position, dist: Seq<usize>, i: int) -> bool {
    forall|q: Position|
        open.contains(q) && #[trigger] adjacent_to(node(open, start, i), q) ==> dist[open.index_of_first(
            q,
        ).unwrap()] <= dist[i] + 1
}

/// The sum of a sequence of counts.
pub open spec fn total(s: Seq<usize>) -> int
    decreases s.len(),
{
    if s.len() == 0 {
        0
    } else {
        total(s.drop_last()) + s.last()
    }
}

proof fn lemma_total_update(s: Seq<usize>, i: int, v: usize)
    requires
        0 <= i < s.len(),
    ensures
        total(s.update(i, v)) == total(s) - s[i] + v,
    decreases s.len(),
{
    if i == s.len() - 1 {
        assert(s.update(i, v).drop_last() =~= s.drop_last());
    } else {
        lemma_total_update(s.drop_last(), i, v);
        assert(s.update(i, v).drop_last() =~= s.drop_last().update(i, v));
    }
}

proof fn lemma_total_nonneg(s: Seq<usize>)
    ensures
        total(s) >= 0,
    decreases s.len(),
{
    if s.len() > 0 {
        lemma_total_nonneg(s.drop_last());
    }
}

/// Under the same conditions, the `m`-th tile of a short walk from the start was reached at a
/// cost of at most `m`.
proof fn lemma_reached(
    open: Seq<Position>,
    start: Position,
    dist: Seq<usize>,
    s: int,
    e: int,
    w: Seq<Position>,
    m: int,
) -> (cur: int)
    requires
        dist.len() == open.len() + 1,
        0 <= s <= open.len(),
        node(open, start, s) == start,
        dist[s] == 0,
        0 <= e < open.len(),
        dist[e] > open.len(),
        forall|i: int|
            0 <= i <= open.len() && dist[i] < open.len() && i != e ==> #[trigger] settled(
                open,
                start,
                dist,
                i,
            ),
        is_walk(open, w, start, open[e]),
        w.len() <= open.len() + 1,
        0 <= m < w.len(),
    ensures
        0 <= cur <= open.len(),
        node(open, start, cur) == w[m],
        dist[cur] <= m,
        m == 0 ==> cur == s,
        m > 0 ==> open.index_of_first(w[m]) == Some(cur),
    decreases m,
{
    if m == 0 {
        s
    } else {
        let prev = lemma_reached(open, start, dist, s, e, w, m - 1);
        let q = w[m];
        assert(open.contains(q) && adjacent_to(w[m - 1], q));
        assert(prev != e);
        assert(settled(open, start, dist, prev));
        open.index_of_first_ensures(q);
        open.index_of_first(q).unwrap()
    }
}

/// When the search has settled every reached node but `e`, and `e` was never reached, no walk
/// of at most `open.len()` steps leads from the start to `open[e]`.
proof fn lemma_no_short_walk(
    open: Seq<Position>,
    start: Position,
    dist: Seq<usize>,
    s: int,
    e: int,
    w: Seq<Position>,
)
    requires
        dist.len() == open.len() + 1,
        0 <= s <= open.len(),
        node(open, start, s) == start,
        open.index_of_first(start) is Some ==> open.index_of_first(start) == Some(s),
        dist[s] == 0,
        open.index_of_first(open[e]) == Some(e),
        0 <= e < open.len(),
        dist[e] > open.len(),
        forall|i: int|
            0 <= i <= open.len() && dist[i] < open.len() && i != e ==> #[trigger] settled(
                open,
                start,
                dist,
                i,
            ),
        is_walk(open, w, start, open[e]),
    ensures
        w.len() > open.len() + 1,
{
    if w.len() <= open.len() + 1 {
        let cur = lemma_reached(open, start, dist, s, e, w, w.len() - 1);
        if w.len() == 1 {
            assert(start == open[e]);
            open.index_of_first_ensures(start);
            assert(open.contains(open[e]));
        }
    }
}

/// The priority of a node reached at `cost` with estimate `est` of the rest.
pub open spec fn prio(cost: int, est: WithInfinity<u64>) -> int {
    match est {
        WithInfinity::Normal(h) => cost + h,
        WithInfinity::Infinity => u128::MAX as int,
    }
}

/// Each frontier node has as priority its recorded cost plus the estimate from its tile.
pub open spec fn priorities_ok<H: Heuristic + ?Sized>(
    heuristic: &H,
    open: Seq<Position>,
    start: Position,
    end: Position,
    dist: Seq<usize>,
    items: Map<usize, u128>,
) -> bool {
    forall|k: usize| #[trigger]
        items.contains_key(k) ==> items[k] as int == prio(
            dist[k as int] as int,
            heuristic.estimate(node(open, start, k as int), end),
        )
}

/// The estimate to `end` from the start, or from any open tile, never exceeds the length of a
/// walk from there to `end` of at most `u64::MAX` steps.
pub open spec fn admissible<H: Heuristic + ?Sized>(
    heuristic: &H,
    open: Seq<Position>,
    start: Position,
    end: Position,
) -> bool {
    forall|x: Position, v: Seq<Position>|
        (open.contains(x) || x == start) && #[trigger] is_walk(open, v, x, end) && v.len() - 1
            <= u64::MAX ==> (
        heuristic.estimate(x, end) matches WithInfinity::Normal(h) && h <= v.len() - 1)
}

proof fn lemma_walk_suffix(open: Seq<Position>, w: Seq<Position>, x: Position, y: Position, m: int)
    requires
        is_walk(open, w, x, y),
        0 <= m < w.len(),
    ensures
        is_walk(open, w.subrange(m, w.len() as int), w[m], y),
{
    let v = w.subrange(m, w.len() as int);
    assert forall|j: int| 1 <= j < v.len() implies open.contains(#[trigger] v[j]) && adjacent_to(
        v[j - 1],
        v[j],
    ) by {
        assert(v[j] == w[j + m] && v[j - 1] == w[j + m - 1]);
    }
    assert(v.last() == w.last());
}

/// A node on the walk that is still on the frontier bounds the cost of `e`, the node of least
/// priority, by the walk's length.
proof fn lemma_frontier_bound<H: Heuristic + ?Sized>(
    heuristic: &H,
    open: Seq<Position>,
    start: Position,
    end: Position,
    e: int,
    dist: Seq<usize>,
    items: Map<usize, u128>,
    w: Seq<Position>,
    m: int,
    cur: int,
)
    requires
        open.len() < usize::MAX,
        0 <= e < open.len(),
        open[e] == end,
        dist.len() == open.len() + 1,
        priorities_ok(heuristic, open, start, end, dist, items),
        items.contains_key(e as usize),
        items.contains_key(cur as usize),
        items[e as usize] <= items[cur as usize],
        admissible(heuristic, open, start, end),
        is_walk(open, w, start, end),
        w.len() - 1 <= open.len(),
        0 <= m < w.len(),
        0 <= cur <= open.len(),
        node(open, start, cur) == w[m],
        m == 0 ==> w[m] == start,
        m > 0 ==> open.contains(w[m]),
        dist[cur] <= m,
    ensures
        dist[e] <= w.len() - 1,
{
    lemma_walk_suffix(open, w, start, end, m);
    let v = w.subrange(m, w.len() as int);
    assert(is_walk(open, v, w[m], end));
    assert(usize::MAX <= u64::MAX);
    assert(v.len() - 1 <= u64::MAX);
    assert(heuristic.estimate(w[m], end) matches WithInfinity::Normal(h) && h <= w.len() - 1 - m);
    assert((cur as usize) as int == cur && (e as usize) as int == e);
    assert(items[cur as usize] as int == prio(dist[cur] as int, heuristic.estimate(w[m], end)));
    assert(items[e as usize] as int == prio(dist[e] as int, heuristic.estimate(end, end)));
}

/// Scanning a walk from the start: the `m`-th tile was reached at a cost of at most `m`, up to
/// the first node on the walk still on the frontier, which bounds the cost of `e`.
proof fn lemma_scan<H: Heuristic + ?Sized>(
    heuristic: &H,
    open: Seq<Position>,
    start: Position,
    end: Position,
    s: int,
    e: int,
    dist: Seq<usize>,
    items: Map<usize, u128>,
    w: Seq<Position>,
    m: int,
    cur: int,
)
    requires
        open.len() < usize::MAX,
        0 <= e < open.len(),
        open[e] == end,
        open.index_of_first(end) == Some(e),
        0 <= s <= open.len(),
        open.index_of_first(start) is Some ==> open.index_of_first(start) == Some(s),
        dist.len() == open.len() + 1,
        settled_except(open, start, e, dist, items, e),
        priorities_ok(heuristic, open, start, end, dist, items),
        items.contains_key(e as usize),
        forall|j: usize| #[trigger] items.contains_key(j) ==> items[e as usize] <= items[j],
        admissible(heuristic, open, start, end),
        is_walk(open, w, start, end),
        w.len() - 1 <= open.len(),
        0 <= m < w.len(),
        0 <= cur <= open.len(),
        node(open, start, cur) == w[m],
        m == 0 ==> cur == s,
        m > 0 ==> open.index_of_first(w[m]) == Some(cur),
        dist[cur] <= m,
    ensures
        dist[e] <= w.len() - 1,
    decreases w.len() - m,
{
    if m > 0 {
        open.index_of_first_ensures(w[m]);
    }
    if items.contains_key(cur as usize) {
        lemma_frontier_bound(heuristic, open, start, end, e, dist, items, w, m, cur);
    } else {
        if m == w.len() - 1 {
            open.index_of_first_ensures(start);
            assert(cur == e);
        }
        assert(settled(open, start, dist, cur));
        let q = w[m + 1];
        assert(open.contains(q) && adjacent_to(w[m], q));
        open.index_of_first_ensures(q);
        let nxt = open.index_of_first(q).unwrap();
        lemma_scan(heuristic, open, start, end, s, e, dist, items, w, m + 1, nxt);
    }
}

/// Priority of a frontier node: its cost so far plus the estimate of the rest, infinite when
/// the estimate is.
fn priority(cost: usize, estimate: WithInfinity<u64>) -> (r: u128)
    ensures
        r == match estimate {
            WithInfinity::Normal(h) => cost + h,
            WithInfinity::Infinity => u128::MAX as int,
        },
{
    match estimate {
        WithInfinity::Normal(h) => cost as u128 + h as u128,
        WithInfinity::Infinity => u128::MAX,
    }
}

/// Recorded costs and predecessors of the search nodes, and the frontier, are consistent: every
/// node reached after the start has a predecessor of lower cost on an adjacent tile.
pub open spec fn search_frame(
    open: Seq<Position>,
    start: Position,
    s: int,
    e: int,
    dist: Seq<usize>,
    pred: Seq<usize>,
    items: Map<usize, u128>,
) -> bool {
    let n = open.len() as int;
    &&& 0 <= s <= n
    &&& node(open, start, s) == start
    &&& (open.index_of_first(start) is Some ==> open.index_of_first(start) == Some(s))
    &&& 0 <= e < n
    &&& open.index_of_first(open[e]) == Some(e)
    &&& dist.len() == n + 1
    &&& pred.len() == n + 1
    &&& dist[s] == 0
    &&& items.dom().finite()
    &&& forall|k: int| 0 <= k <= n ==> #[trigger] dist[k] <= n + 1
    &&& forall|k: usize| #[trigger] items.contains_key(k) ==> k <= n && dist[k as int] < n + 1
    &&& forall|k: int|
        0 <= k <= n && #[trigger] dist[k] < n + 1 && k != s ==> {
            &&& k < n
            &&& pred[k] <= n
            &&& dist[pred[k] as int] < dist[k]
            &&& adjacent_to(node(open, start, pred[k] as int), open[k])
            &&& open.index_of_first(open[k]) == Some(k)
        }
}

/// Every node reached at a cost below `open.len()` and no longer on the frontier is settled,
/// but `e` and `x`.
pub open spec fn settled_except(
    open: Seq<Position>,
    start: Position,
    e: int,
    dist: Seq<usize>,
    items: Map<usize, u128>,
    x: int,
) -> bool {
    forall|k: int|
        0 <= k <= open.len() && dist[k] < open.len() && !items.contains_key(k as usize) && k != e
            && k != x ==> #[trigger] settled(open, start, dist, k)
}

/// Expands node `u`, just taken off the frontier: each open neighbour whose cost improves
/// takes `u` as predecessor and enters the frontier. Afterwards `u` is settled too.
fn expand<H: Heuristic + ?Sized>(
    heuristic: &H,
    open_positions: &Vec<Position>,
    start: Position,
    end: Position,
    s: usize,
    e: usize,
    u: usize,
    dist: &mut Vec<usize>,
    pred: &mut Vec<usize>,
    queue: &mut Frontier,
)
    requires
        priorities_ok(heuristic, open_positions@, start, end, old(dist)@, frontier_items(*old(queue))),
        old(dist)@[e as int] < open_positions@.len() + 1 ==> frontier_items(*old(queue)).contains_key(e),
        open_positions@.len() < usize::MAX,
        open_positions@[e as int] == end,
        search_frame(
            open_positions@,
            start,
            s as int,
            e as int,
            old(dist)@,
            old(pred)@,
            frontier_items(*old(queue)),
        ),
        settled_except(
            open_positions@,
            start,
            e as int,
            old(dist)@,
            frontier_items(*old(queue)),
            u as int,
        ),
        u <= open_positions@.len(),
        u != e,
        old(dist)@[u as int] < open_positions@.len() + 1,
        !frontier_items(*old(queue)).contains_key(u),
    ensures
        priorities_ok(heuristic, open_positions@, start, end, final(dist)@, frontier_items(*final(queue))),
        final(dist)@[e as int] < open_positions@.len() + 1 ==> frontier_items(*final(queue)).contains_key(e),
        search_frame(
            open_positions@,
            start,
            s as int,
            e as int,
            final(dist)@,
            final(pred)@,
            frontier_items(*final(queue)),
        ),
        settled_except(
            open_positions@,
            start,
            e as int,
            final(dist)@,
            frontier_items(*final(queue)),
            e as int,
        ),
        total(final(dist)@) + frontier_items(*final(queue)).dom().len() <= total(old(dist)@)
            + frontier_items(*old(queue)).dom().len(),
{
    let ghost open = open_positions@;
    let n = open_positions.len();
    let pu = if u < n {
        open_positions[u]
    } else {
        start
    };
    let du = dist[u];
    let adj = pu.adjacent();
    proof {
        crate::position::lemma_neighbours(pu);
    }
    let ghost measure = total(dist@) + frontier_items(*queue).dom().len();
    let mut k: usize = 0;
    while k < adj.len()
        invariant
            priorities_ok(heuristic, open, start, end, dist@, frontier_items(*queue)),
            dist@[e as int] < n + 1 ==> frontier_items(*queue).contains_key(e),
            n == open.len(),
            n < usize::MAX,
            open == open_positions@,
            open[e as int] == end,
            u <= n,
            u != e,
            pu == node(open, start, u as int),
            adj@ == neighbours(pu),
            forall|q: Position| adj@.contains(q) <==> adjacent_to(pu, q),
            du == dist@[u as int],
            du < n + 1,
            k <= adj@.len(),
            !frontier_items(*queue).contains_key(u),
            search_frame(open, start, s as int, e as int, dist@, pred@, frontier_items(*queue)),
            settled_except(open, start, e as int, dist@, frontier_items(*queue), u as int),
            total(dist@) + frontier_items(*queue).dom().len() <= measure,
            forall|j: int|
                0 <= j < k && du < n && open.contains(#[trigger] adj@[j]) ==> dist@[open.index_of_first(
                    adj@[j],
                ).unwrap()] <= du + 1,
        decreases adj.len() - k,
    {
        let q = adj[k];
        proof {
            assert(adj@.contains(q));
        }
        let ghost d0 = dist@;
        relax(heuristic, open_positions, start, end, s, e, u, q, dist, pred, queue);
        proof {
            assert forall|j: int|
                0 <= j < k + 1 && du < n && open.contains(#[trigger] adj@[j]) implies dist@[open.index_of_first(
                adj@[j],
            ).unwrap()] <= du + 1 by {
                open.index_of_first_ensures(adj@[j]);
                if j < k {
                    assert(dist@[open.index_of_first(adj@[j]).unwrap()] <= d0[open.index_of_first(
                        adj@[j],
                    ).unwrap()]);
                }
            }
        }
        k += 1;
    }
    if du < n {
        assert forall|q: Position|
            open.contains(q) && #[trigger] adjacent_to(node(open, start, u as int), q) implies dist@[open.index_of_first(
                q,
            ).unwrap()] <= dist@[u as int] + 1 by {
            {
                assert(adjacent_to(pu, q));
                assert(adj@.contains(q));
                let j = choose|j: int| 0 <= j < adj@.len() && adj@[j] == q;
                assert(open.contains(adj@[j]));
            }
        }
        assert(settled(open, start, dist@, u as int));
    }
}

proof fn lemma_settled_mono(open: Seq<Position>, start: Position, d1: Seq<usize>, d2: Seq<usize>, i: int)
    requires
        d1.len() == d2.len(),
        0 <= i < d1.len(),
        forall|k: int| 0 <= k < d1.len() ==> #[trigger] d2[k] <= d1[k],
        d2[i] == d1[i],
        forall|q: Position| #[trigger] open.contains(q) ==> 0 <= open.index_of_first(q).unwrap() < d1.len(),
        settled(open, start, d1, i),
    ensures
        settled(open, start, d2, i),
{
    assert forall|q: Position|
        open.contains(q) && #[trigger] adjacent_to(node(open, start, i), q) implies d2[open.index_of_first(
            q,
        ).unwrap()] <= d2[i] + 1 by {
        let j = open.index_of_first(q).unwrap();
        assert(d2[j] <= d1[j]);
    }
}

/// Relaxes the step from node `u` to tile `q`: when `q` is open and the step improves its
/// recorded cost, within `open.len()`, `q` takes `u` as predecessor and enters the frontier.
fn relax<H: Heuristic + ?Sized>(
    heuristic: &H,
    open_positions: &Vec<Position>,
    start: Position,
    end: Position,
    s: usize,
    e: usize,
    u: usize,
    q: Position,
    dist: &mut Vec<usize>,
    pred: &mut Vec<usize>,
    queue: &mut Frontier,
)
    requires
        priorities_ok(heuristic, open_positions@, start, end, old(dist)@, frontier_items(*old(queue))),
        old(dist)@[e as int] < open_positions@.len() + 1 ==> frontier_items(*old(queue)).contains_key(e),
        open_positions@.len() < usize::MAX,
        open_positions@[e as int] == end,
        search_frame(
            open_positions@,
            start,
            s as int,
            e as int,
            old(dist)@,
            old(pred)@,
            frontier_items(*old(queue)),
        ),
        settled_except(
            open_positions@,
            start,
            e as int,
            old(dist)@,
            frontier_items(*old(queue)),
            u as int,
        ),
        u <= open_positions@.len(),
        u != e,
        old(dist)@[u as int] < open_positions@.len() + 1,
        !frontier_items(*old(queue)).contains_key(u),
        adjacent_to(node(open_positions@, start, u as int), q),
    ensures
        priorities_ok(heuristic, open_positions@, start, end, final(dist)@, frontier_items(*final(queue))),
        final(dist)@[e as int] < open_positions@.len() + 1 ==> frontier_items(*final(queue)).contains_key(e),
        search_frame(
            open_positions@,
            start,
            s as int,
            e as int,
            final(dist)@,
            final(pred)@,
            frontier_items(*final(queue)),
        ),
        settled_except(
            open_positions@,
            start,
            e as int,
            final(dist)@,
            frontier_items(*final(queue)),
            u as int,
        ),
        !frontier_items(*final(queue)).contains_key(u),
        final(dist)@[u as int] == old(dist)@[u as int],
        forall|k: int| 0 <= k < old(dist)@.len() ==> #[trigger] final(dist)@[k] <= old(dist)@[k],
        total(final(dist)@) + frontier_items(*final(queue)).dom().len() <= total(old(dist)@)
            + frontier_items(*old(queue)).dom().len(),
        old(dist)@[u as int] < open_positions@.len() && open_positions@.contains(q)
            ==> final(dist)@[open_positions@.index_of_first(q).unwrap()] <= old(dist)@[u as int]
            + 1,
{
    let ghost open = open_positions@;
    let n = open_positions.len();
    let du = dist[u];
    proof {
        open.index_of_first_ensures(q);
    }
    match index_of(open_positions, q) {
        None => {},
        Some(v) => {
            let alt = du + 1;
            if alt <= n && alt < dist[v] {
                proof {
                    if v == u {
                        assert(node(open, start, u as int) == q);
                    }
                    lemma_total_update(dist@, v as int, alt);
                }
                let ghost old_dist = dist@;
                let ghost old_queue = frontier_items(*queue);
                dist.set(v, alt);
                pred.set(v, u);
                let h = heuristic.heuristic_distance(q, end);
                push_frontier(queue, v, priority(alt, h));
                proof {
                    assert(node(open, start, v as int) == q);
                    assert forall|k: usize| #[trigger]
                        frontier_items(*queue).contains_key(k) implies frontier_items(*queue)[k] as int
                        == prio(
                        dist@[k as int] as int,
                        heuristic.estimate(node(open, start, k as int), end),
                    ) by {
                        if k != v {
                            assert(old_queue.contains_key(k));
                            assert(dist@[k as int] == old_dist[k as int]);
                        }
                    }
                    assert forall|q: Position| #[trigger] open.contains(q) implies 0 <= open.index_of_first(q).unwrap() < old_dist.len() by {
                        open.index_of_first_ensures(q);
                    }
                    assert forall|i: int|
                        0 <= i <= n && dist@[i] < n && !frontier_items(*queue).contains_key(
                            i as usize,
                        ) && i != e && i != u implies #[trigger] settled(open, start, dist@, i) by {
                        assert(i != v);
                        assert(!old_queue.contains_key(i as usize));
                        assert(settled(open, start, old_dist, i));
                        lemma_settled_mono(open, start, old_dist, dist@, i);
                    }
                    assert forall|i: int|
                        0 <= i <= n && #[trigger] dist@[i] < n + 1 && i != s implies {
                        &&& i < n
                        &&& pred@[i] <= n
                        &&& dist@[pred@[i] as int] < dist@[i]
                        &&& adjacent_to(node(open, start, pred@[i] as int), open[i])
                        &&& open.index_of_first(open[i]) == Some(i)
                    } by {
                        if i != v {
                            assert(old_dist[i] == dist@[i]);
                        }
                    }
                }
            }
        },
    }
}

/// An admissible heuristic for A*: an estimate of the distance between two tiles that never
/// exceeds the true one. The tighter it is, the fewer tiles the search expands.
pub trait Heuristic {
    /// The estimate of the distance from `start` to `end`.
    spec fn estimate(&self, start: Position, end: Position) -> WithInfinity<u64>;

    fn heuristic_distance(&self, start: Position, end: Position) -> (r: WithInfinity<u64>)
        ensures
            r == self.estimate(start, end),
    ;
}

#[verifier::rlimit(30)]
/// A* from `start` to `end` through the tiles of `open_positions`. The path holds every
/// tile after `start`, up to and including `end`; it is empty when `start == end`.
///
/// `None` comes when `end` is not open, when the estimate from `start` to `end` is
/// infinite, or when no walk of at most `open_positions.len()` steps reaches `end`. A
/// shortest walk never enters a tile twice, so the last case means no walk at all.
///
/// With an admissible heuristic the path is a shortest one. Relaxations past
/// `open_positions.len()` steps are skipped: no shortest walk is that long.
pub fn find_shortest_path<H: Heuristic + ?Sized>(
    heuristic: &H,
    open_positions: &Vec<Position>,
    start: Position,
    end: Position,
) -> (r: Option<VecDeque<Position>>)
    requires
        open_positions@.len() < usize::MAX,
    ensures
        r matches Some(p) ==> is_walk(open_positions@, seq![start] + p@, start, end)
            && p@.len() <= open_positions@.len(),
        r matches Some(p) ==> (start == end ==> p@.len() == 0),
        r is Some <==> open_positions@.contains(end) && heuristic.estimate(start, end) is Normal
            && reachable_within(open_positions@, start, end, open_positions@.len() as int),
        r matches Some(p) ==> p@.no_duplicates() && !p@.contains(start),
        admissible(heuristic, open_positions@, start, end) ==> (r matches Some(p) ==> forall|
            w: Seq<Position>,
        | #[trigger] is_walk(open_positions@, w, start, end) && w.len() - 1 <= open_positions@.len()
            ==> p@.len() <= w.len() - 1),
{
    let n = open_positions.len();
    let unset = n + 1;
    let ghost open = open_positions@;
    let s: usize = match index_of(open_positions, start) {
        Some(i) => i,
        None => n,
    };
    let h0 = heuristic.heuristic_distance(start, end);
    if let WithInfinity::Infinity = h0 {
        return None;
    }
    let e: usize = match index_of(open_positions, end) {
        Some(i) => i,
        None => {
            proof {
                open.index_of_first_ensures(end);
            }
            return None;
        },
    };
    let mut dist: Vec<usize> = Vec::new();
    let mut pred: Vec<usize> = Vec::new();
    let mut i: usize = 0;
    while i <= n
        invariant
            i <= n + 1,
            unset == n + 1,
            dist@.len() == i,
            pred@.len() == i,
            forall|k: int| 0 <= k < i ==> dist@[k] == unset,
        decreases n + 1 - i,
    {
        dist.push(unset);
        pred.push(0);
        i += 1;
    }
    dist.set(s, 0);
    proof {
        lemma_total_nonneg(dist@);
    }
    let mut queue: Frontier = new_frontier();
    push_frontier(&mut queue, s, priority(0, h0));
    proof {
        open.index_of_first_ensures(end);
        open.index_of_first_ensures(start);
    }
    loop
        invariant_except_break
            dist@[e as int] < unset ==> frontier_items(queue).contains_key(e),
        invariant
            n == open.len(),
            open == open_positions@,
            unset == n + 1,
            open[e as int] == end,
            search_frame(open, start, s as int, e as int, dist@, pred@, frontier_items(queue)),
            settled_except(open, start, e as int, dist@, frontier_items(queue), e as int),
            total(dist@) >= 0,
            priorities_ok(heuristic, open, start, end, dist@, frontier_items(queue)),
        ensures
            dist@[e as int] < unset || frontier_items(queue).dom().is_empty(),
            dist@[e as int] < unset ==> (admissible(heuristic, open, start, end) ==> forall|
                w: Seq<Position>,
            | #[trigger] is_walk(open, w, start, end) && w.len() - 1 <= n ==> dist@[e as int] <= w.len()
                - 1),
        decreases total(dist@) + frontier_items(queue).dom().len(),
    {
        let ghost before = frontier_items(queue);
        match pop_min_frontier(&mut queue) {
            None => {
                proof {
                    assert(!before.contains_key(e));
                }
                break ;
            },
            Some((u, _)) => {
                if u == e {
                    proof {
                        assert forall|w: Seq<Position>|
                            admissible(heuristic, open, start, end) && #[trigger] is_walk(
                                open,
                                w,
                                start,
                                end,
                            ) && w.len() - 1 <= n implies dist@[e as int] <= w.len() - 1 by {
                            lemma_scan(heuristic, open, start, end, s as int, e as int, dist@, before, w, 0, s as int);
                        }
                    }
                    break ;
                }
                proof {
                    assert(before.dom().contains(u));
                    assert(before.dom().remove(u).len() == before.dom().len() - 1);
                    assert(frontier_items(queue).dom() =~= before.dom().remove(u));
                    assert(search_frame(open, start, s as int, e as int, dist@, pred@, frontier_items(queue)));
                    assert(settled_except(open, start, e as int, dist@, frontier_items(queue), u as int));
                    assert(priorities_ok(heuristic, open, start, end, dist@, frontier_items(queue)));
                }
                expand(heuristic, open_positions, start, end, s, e, u, &mut dist, &mut pred, &mut queue);
                proof {
                    lemma_total_nonneg(dist@);
                }
            },
        }
    }
    if dist[e] == unset {
        proof {
            assert forall|w: Seq<Position>|
                is_walk(open, w, start, end) implies w.len() > n + 1 by {
                lemma_no_short_walk(open, start, dist@, s as int, e as int, w);
            }
        }
        return None;
    }
    let mut path: VecDeque<Position> = VecDeque::new();
    let mut cur: usize = e;
    let ghost mut ids: Seq<int> = Seq::empty();
    while cur != s
        invariant
            n == open.len(),
            open == open_positions@,
            unset == n + 1,
            s <= n,
            node(open, start, s as int) == start,
            e < n,
            open[e as int] == end,
            dist@.len() == n + 1,
            pred@.len() == n + 1,
            cur <= n,
            dist@[cur as int] < unset,
            dist@[e as int] < unset,
            path@.len() + dist@[cur as int] <= dist@[e as int],
            dist@[s as int] == 0,
            admissible(heuristic, open, start, end) ==> forall|w: Seq<Position>|
                #[trigger] is_walk(open, w, start, end) && w.len() - 1 <= n ==> dist@[e as int]
                    <= w.len() - 1,
            is_walk(open, seq![node(open, start, cur as int)] + path@, node(open, start, cur as int), end),
            forall|k: int|
                0 <= k <= n && #[trigger] dist@[k] < unset && k != s ==> {
                    &&& k < n
                    &&& pred@[k] <= n
                    &&& dist@[pred@[k] as int] < dist@[k]
                    &&& adjacent_to(node(open, start, pred@[k] as int), open[k])
                    &&& open.index_of_first(open[k]) == Some(k)
                },
            open.index_of_first(start) is Some ==> open.index_of_first(start) == Some(s as int),
            ids.len() == path@.len(),
            forall|i: int|
                0 <= i < ids.len() ==> 0 <= #[trigger] ids[i] < n && path@[i] == open[ids[i]]
                    && open.index_of_first(path@[i]) == Some(ids[i]) && dist@[ids[i]]
                    > dist@[cur as int],
            forall|i: int, j: int|
                0 <= i < j < ids.len() ==> dist@[#[trigger] ids[i]] < dist@[#[trigger] ids[j]],
        decreases dist@[cur as int],
    {
        let ghost old_ids = ids;
        proof {
            ids = seq![cur as int] + ids;
        }
        let ghost old_path = path@;
        let ghost c = cur as int;
        path.push_front(open_positions[cur]);
        cur = pred[cur];
        proof {
            let w_old = seq![node(open, start, c)] + old_path;
            let w = seq![node(open, start, cur as int)] + path@;
            assert(path@ =~= seq![open[c]] + old_path);
            assert forall|m: int| 1 <= m < w.len() implies open.contains(#[trigger] w[m])
                && adjacent_to(w[m - 1], w[m]) by {
                if m == 1 {
                    assert(w[1] == open[c]);
                } else {
                    assert(w[m] == w_old[m - 1]);
                    assert(w[m - 1] == w_old[m - 2]);
                }
            }
            assert(w.last() == w_old.last());
            assert forall|i: int|
                0 <= i < ids.len() implies 0 <= #[trigger] ids[i] < n && path@[i] == open[ids[i]]
                && open.index_of_first(path@[i]) == Some(ids[i]) && dist@[ids[i]]
                > dist@[cur as int] by {
                if i > 0 {
                    assert(ids[i] == old_ids[i - 1]);
                    assert(path@[i] == old_path[i - 1]);
                }
            }
            assert forall|i: int, j: int|
                0 <= i < j < ids.len() implies dist@[#[trigger] ids[i]] < dist@[#[trigger] ids[j]] by {
                assert(ids[j] == old_ids[j - 1]);
                if i > 0 {
                    assert(ids[i] == old_ids[i - 1]);
                }
            }
        }
    }
    proof {
        assert(path@.no_duplicates()) by {
            assert forall|i: int, j: int|
                0 <= i < path@.len() && 0 <= j < path@.len() && i != j implies path@[i]
                != path@[j] by {
                if path@[i] == path@[j] {
                    assert(ids[i] == ids[j]);
                    if i < j {
                        assert(dist@[ids[i]] < dist@[ids[j]]);
                    } else {
                        assert(dist@[ids[j]] < dist@[ids[i]]);
                    }
                }
            }
        }
        assert(!path@.contains(start)) by {
            if path@.contains(start) {
                let i = choose|i: int| 0 <= i < path@.len() && path@[i] == start;
                assert(open.index_of_first(start) == Some(ids[i]));
            }
        }
    }
    Some(path)
}

/// The 3D Hamming distance: admissible on any map, as every step changes one coordinate by one.
pub struct HammingDistance;

impl Heuristic for HammingDistance {
    open spec fn estimate(&self, start: Position, end: Position) -> WithInfinity<u64> {
        WithInfinity::Normal(capped_hamming(start, end))
    }

    fn heuristic_distance(&self, start: Position, end: Position) -> (r: WithInfinity<u64>) {
        WithInfinity::Normal(start.hamming_distance(end))
    }
}

impl HammingDistance {
    /// [`find_shortest_path`] guided by this heuristic.
    pub fn find_shortest_path(
        &self,
        open_positions: &Vec<Position>,
        start: Position,
        end: Position,
    ) -> (r: Option<VecDeque<Position>>)
        requires
            open_positions@.len() < usize::MAX,
        ensures
            r matches Some(p) ==> is_walk(open_positions@, seq![start] + p@, start, end)
                && p@.len() <= open_positions@.len(),
            r matches Some(p) ==> (start == end ==> p@.len() == 0),
            r matches Some(p) ==> p@.no_duplicates() && !p@.contains(start),
            r is Some <==> open_positions@.contains(end) && reachable_within(
                open_positions@,
                start,
                end,
                open_positions@.len() as int,
            ),
            r matches Some(p) ==> forall|w: Seq<Position>|
                #[trigger] is_walk(open_positions@, w, start, end) && w.len() - 1
                    <= open_positions@.len() ==> p@.len() <= w.len() - 1,
            r is Some <==> open_positions@.contains(end) && reachable(open_positions@, start, end),
    {
        proof {
            lemma_hamming_heuristic_admissible(open_positions@, start, end);
            lemma_reachable_within_size(open_positions@, start, end);
        }
        find_shortest_path(self, open_positions, start, end)
    }
}

/// The Hamming heuristic is admissible on any set of open tiles.
pub proof fn lemma_hamming_heuristic_admissible(open: Seq<Position>, start: Position, end: Position)
    ensures
        admissible(&HammingDistance, open, start, end),
{
    assert forall|x: Position, v: Seq<Position>|
        (open.contains(x) || x == start) && #[trigger] is_walk(open, v, x, end) && v.len() - 1
            <= u64::MAX implies (HammingDistance.estimate(x, end) matches WithInfinity::Normal(h) && h <= v.len() - 1) by {
        lemma_hamming_admissible(open, v, x, end);
    }
}

/// A* and the breadth first search agree: a path that A* returns, no longer than any walk of at
/// most `open.len()` steps, has as many steps as the distance the search hands out for `end`.
pub proof fn lemma_search_agrees_with_bfs(
    open: Seq<Position>,
    start: Position,
    end: Position,
    p: Seq<Position>,
    k: int,
)
    requires
        is_walk(open, seq![start] + p, start, end),
        forall|w: Seq<Position>|
            #[trigger] is_walk(open, w, start, end) && w.len() - 1 <= open.len() ==> p.len() <= w.len()
                - 1,
        has_walk(open, start, end, k),
        forall|w: Seq<Position>| #[trigger] is_walk(open, w, start, end) ==> w.len() - 1 >= k,
    ensures
        p.len() == k,
{
    let w = choose|w: Seq<Position>| is_walk(open, w, start, end) && w.len() == k + 1;
    lemma_shortcut(open, w, start, end);
    let v = choose|v: Seq<Position>| is_walk(open, v, start, end) && v.len() <= open.len() + 1;
    assert(v.len() - 1 >= k);
    assert(p.len() <= w.len() - 1);
    assert(is_walk(open, seq![start] + p, start, end));
    assert((seq![start] + p).len() - 1 >= k);
}

} // verus!
