//! # All pairs shortest paths
//!
//! The table of shortest distances between all pairs of statically open tiles, built by
//! Floyd-Warshall relaxation, and its use as an A* heuristic.
use crate::cost::{ext_lt, ext_sum, WithInfinity};
use crate::pathfinding::{admissible, find_shortest_path, Heuristic};
use crate::position::{adjacent_to, hamming, Position};
use crate::walk::{
    has_walk, index_of, is_walk, lemma_hamming_admissible, lemma_shortcut, lemma_walk_concat,
    lemma_walk_empty, lemma_walk_reverse, reachable, reachable_within,
};
use std::collections::VecDeque;
use vstd::prelude::*;

verus! {

/// The shortest distances between all pairs of statically open tiles. As statically closed
/// tiles never open, they bound from below the distances over the tiles open at any moment,
/// which makes the table an admissible and tight heuristic.
///
/// The table is read through [`AllPairsShortestPaths::distance_between`].
pub struct AllPairsShortestPaths {
    positions: Vec<Position>,
    distances: Vec<WithInfinity<u64>>,
}

impl AllPairsShortestPaths {
    /// The table's tiles, in the order they were given.
    pub closed spec fn tiles(&self) -> Seq<Position> {
        self.positions@
    }

    /// The distances, row by row: the row of tile `i` holds entries `i * n .. (i + 1) * n`.
    pub closed spec fn table(&self) -> Seq<WithInfinity<u64>> {
        self.distances@
    }

    /// The table has one entry for each ordered pair of its tiles.
    pub closed spec fn wf(&self) -> bool {
        self.distances@.len() == self.positions@.len() * self.positions@.len()
    }

    /// The recorded distance from tile `i` to tile `j`.
    pub closed spec fn entry(&self, i: int, j: int) -> WithInfinity<u64> {
        self.distances@[i * self.positions@.len() + j]
    }

    /// The recorded distance between two tiles, when both are in the table.
    pub closed spec fn lookup(&self, a: Position, b: Position) -> Option<WithInfinity<u64>> {
        match (self.positions@.index_of_first(a), self.positions@.index_of_first(b)) {
            (Some(i), Some(j)) => if self.wf() {
                Some(self.entry(i, j))
            } else {
                None
            },
            _ => None,
        }
    }

    /// The recorded distance from `position` to `other_position`, or `None` when either is not
    /// one of the table's tiles.
    pub fn distance_between(&self, position: Position, other_position: Position) -> (r: Option<
        WithInfinity<u64>,
    >)
        ensures
            r == self.lookup(position, other_position),
    {
        let n = self.positions.len();
        let len = self.distances.len();
        let fits = match n.checked_mul(n) {
            Some(nn) => nn == len,
            None => false,
        };
        match (index_of(&self.positions, position), index_of(&self.positions, other_position)) {
            (Some(i), Some(j)) => {
                if fits {
                    proof {
                        lemma_index_bound(i as int, j as int, n as int);
                    }
                    Some(self.distances[i * n + j])
                } else {
                    None
                }
            },
            _ => None,
        }
    }
}

impl Heuristic for AllPairsShortestPaths {
    open spec fn estimate(&self, start: Position, end: Position) -> WithInfinity<u64> {
        match self.lookup(start, end) {
            Some(d) => d,
            None => WithInfinity::Infinity,
        }
    }

    fn heuristic_distance(&self, start: Position, end: Position) -> (r: WithInfinity<u64>) {
        match self.distance_between(start, end) {
            Some(d) => d,
            None => WithInfinity::Infinity,
        }
    }
}

impl AllPairsShortestPaths {
    /// [`find_shortest_path`] guided by this heuristic.
    pub fn find_shortest_path(
        &self,
        open_positions: &Vec<Position>,
        start: Position,
        end: Position,
    ) -> (r: Option<VecDeque<Position>>)
        requires
            open_positions@.len() < usize::MAX,
        ensures
            r matches Some(p) ==> is_walk(open_positions@, seq![start] + p@, start, end)
                && p@.len() <= open_positions@.len(),
            r matches Some(p) ==> (start == end ==> p@.len() == 0),
            r matches Some(p) ==> p@.no_duplicates() && !p@.contains(start),
            r is Some <==> open_positions@.contains(end) && self.estimate(start, end) is Normal
                && reachable_within(open_positions@, start, end, open_positions@.len() as int),
            admissible(self, open_positions@, start, end) ==> (r matches Some(p) ==> forall|
                w: Seq<Position>,
            | #[trigger] is_walk(open_positions@, w, start, end) && w.len() - 1
                <= open_positions@.len() ==> p@.len() <= w.len() - 1),
    {
        find_shortest_path(self, open_positions, start, end)
    }
}

proof fn lemma_index_bound(i: int, j: int, n: int)
    requires
        0 <= i < n,
        0 <= j < n,
    ensures
        0 <= i * n + j < n * n,
        i * n <= i * n + j,
{
    assert(i * n + j < n * n) by (nonlinear_arith)
        requires
            0 <= i < n,
            0 <= j < n,
    ;
    assert(0 <= i * n) by (nonlinear_arith)
        requires
            0 <= i,
            0 <= n,
    ;
}

proof fn lemma_index_unique(a: int, b: int, i: int, j: int, n: int)
    requires
        0 <= a < n,
        0 <= b < n,
        0 <= i < n,
        0 <= j < n,
        a * n + b == i * n + j,
    ensures
        a == i,
        b == j,
{
    if a < i {
        assert(a * n + b < i * n + j) by (nonlinear_arith)
            requires
                a < i,
                0 <= b < n,
                0 <= j,
        ;
    } else if a > i {
        assert(a * n + b > i * n + j) by (nonlinear_arith)
            requires
                a > i,
                0 <= j < n,
                0 <= b,
        ;
    }
}

/// What the table claims of tiles `a` and `b` holds: a finite entry is the length of a walk
/// between them, the entry of a tile to itself is zero, and adjacent tiles are at most one
/// step apart.
pub open spec fn entry_holds(open: Seq<Position>, a: int, b: int, v: WithInfinity<u64>) -> bool {
    &&& (v matches WithInfinity::Normal(d) ==> has_walk(open, open[a], open[b], d as int))
    &&& (open[a] == open[b] ==> v == WithInfinity::Normal(0u64))
    &&& (adjacent_to(open[a], open[b]) ==> (v matches WithInfinity::Normal(d) && d <= 1))
}

/// Every tile strictly inside walk `w` is one of the first `k` tiles of `open`.
pub open spec fn within_first(open: Seq<Position>, k: int, w: Seq<Position>) -> bool {
    forall|m: int| 0 < m < w.len() - 1 ==> open.take(k).contains(#[trigger] w[m])
}

/// `v` is finite and at most `len`.
pub open spec fn at_most(v: WithInfinity<u64>, len: int) -> bool {
    v matches WithInfinity::Normal(d) && d <= len
}

/// `v` is no longer than any walk from tile `a` to tile `b` through the first `k` tiles of
/// `open`, of at most `u64::MAX` steps.
pub open spec fn bounded(open: Seq<Position>, k: int, a: int, b: int, v: WithInfinity<u64>) -> bool {
    forall|w: Seq<Position>|
        #[trigger] is_walk(open, w, open[a], open[b]) && within_first(open, k, w) && w.len() - 1 <= u64::MAX
            ==> at_most(v, w.len() - 1)
}

proof fn lemma_take_step(open: Seq<Position>, k: int, t: Position)
    requires
        0 <= k < open.len(),
        open.take(k + 1).contains(t),
        t != open[k],
    ensures
        open.take(k).contains(t),
{
    let i = choose|i: int| 0 <= i < k + 1 && #[trigger] open.take(k + 1)[i] == t;
    assert(open.take(k)[i] == t);
}

/// A walk through the first `k + 1` tiles that passes `open[k]` splits at its first and last
/// visits there into two walks through the first `k` tiles, together no longer.
proof fn lemma_split_walk(
    open: Seq<Position>,
    k: int,
    w: Seq<Position>,
    x: Position,
    y: Position,
) -> (r: (Seq<Position>, Seq<Position>))
    requires
        0 <= k < open.len(),
        is_walk(open, w, x, y),
        within_first(open, k + 1, w),
        !within_first(open, k, w),
    ensures
        is_walk(open, r.0, x, open[k]),
        within_first(open, k, r.0),
        is_walk(open, r.1, open[k], y),
        within_first(open, k, r.1),
        r.0.len() + r.1.len() <= w.len() + 1,
{
    let inner = w.subrange(1, w.len() - 1);
    let m0 = choose|m: int| 0 < m < w.len() - 1 && !open.take(k).contains(#[trigger] w[m]);
    assert(open.take(k + 1).contains(w[m0]));
    if w[m0] != open[k] {
        lemma_take_step(open, k, w[m0]);
    }
    assert(inner[m0 - 1] == open[k]);
    inner.index_of_first_ensures(open[k]);
    inner.index_of_last_ensures(open[k]);
    let f = inner.index_of_first(open[k]).unwrap() + 1;
    let l = inner.index_of_last(open[k]).unwrap() + 1;
    assert(w[f] == inner[f - 1]);
    assert(w[l] == inner[l - 1]);
    let w1 = w.subrange(0, f + 1);
    let w2 = w.subrange(l, w.len() as int);
    assert forall|m: int| 1 <= m < w1.len() implies open.contains(#[trigger] w1[m]) && adjacent_to(
        w1[m - 1],
        w1[m],
    ) by {
        assert(w1[m] == w[m] && w1[m - 1] == w[m - 1]);
    }
    assert forall|m: int| 0 < m < w1.len() - 1 implies open.take(k).contains(#[trigger] w1[m]) by {
        assert(w1[m] == w[m]);
        assert(w[m] == inner[m - 1]);
        assert(open.take(k + 1).contains(w[m]));
        lemma_take_step(open, k, w[m]);
    }
    assert forall|m: int| 1 <= m < w2.len() implies open.contains(#[trigger] w2[m]) && adjacent_to(
        w2[m - 1],
        w2[m],
    ) by {
        assert(w2[m] == w[m + l] && w2[m - 1] == w[m + l - 1]);
    }
    assert forall|m: int| 0 < m < w2.len() - 1 implies open.take(k).contains(#[trigger] w2[m]) by {
        assert(w2[m] == w[m + l]);
        assert(w[m + l] == inner[m + l - 1]);
        assert(open.take(k + 1).contains(w[m + l]));
        lemma_take_step(open, k, w[m + l]);
    }
    assert(w1.last() == w[f]);
    assert(w2.last() == w.last());
    assert(w2[0] == w[l]);
    (w1, w2)
}

/// `v` is no greater than the sum of `ak` and `kb`, where that sum is finite and fits in `u64`.
pub open spec fn relaxed(ak: WithInfinity<u64>, kb: WithInfinity<u64>, v: WithInfinity<u64>) -> bool {
    match (ak, kb) {
        (WithInfinity::Normal(p), WithInfinity::Normal(q)) => p + q > u64::MAX || at_most(v, p + q),
        _ => true,
    }
}

/// A bound that holds of `v1` holds of anything no greater.
proof fn lemma_bounded_mono(
    open: Seq<Position>,
    k: int,
    a: int,
    b: int,
    v1: WithInfinity<u64>,
    v2: WithInfinity<u64>,
)
    requires
        bounded(open, k, a, b, v1),
        v2 == v1 || ext_lt(v2, v1),
    ensures
        bounded(open, k, a, b, v2),
{
}

/// Relaxing through tile `k` extends the bound for tiles `a` and `b` to walks through the first
/// `k + 1` tiles.
proof fn lemma_relax_bound(
    open: Seq<Position>,
    k: int,
    a: int,
    b: int,
    ak: WithInfinity<u64>,
    kb: WithInfinity<u64>,
    old_v: WithInfinity<u64>,
    new_v: WithInfinity<u64>,
)
    requires
        0 <= k < open.len(),
        0 <= a < open.len(),
        0 <= b < open.len(),
        bounded(open, k, a, k, ak),
        bounded(open, k, k, b, kb),
        bounded(open, k, a, b, old_v),
        new_v == old_v || ext_lt(new_v, old_v),
        relaxed(ak, kb, new_v),
    ensures
        bounded(open, k + 1, a, b, new_v),
{
    assert forall|w: Seq<Position>|
        #[trigger] is_walk(open, w, open[a], open[b]) && within_first(open, k + 1, w) && w.len() - 1
            <= u64::MAX implies at_most(new_v, w.len() - 1) by {
        if within_first(open, k, w) {
        } else {
            let (w1, w2) = lemma_split_walk(open, k, w, open[a], open[b]);
            assert(is_walk(open, w1, open[a], open[k]));
            assert(is_walk(open, w2, open[k], open[b]));
        }
    }
}

/// No walk from tile `a` to tile `b` of at most `u64::MAX` steps is shorter than `v`.
pub open spec fn no_shorter_walk(open: Seq<Position>, a: int, b: int, v: WithInfinity<u64>) -> bool {
    forall|w: Seq<Position>|
        #[trigger] is_walk(open, w, open[a], open[b]) && w.len() - 1 <= u64::MAX ==> at_most(
            v,
            w.len() - 1,
        )
}

proof fn lemma_bounded_initial(open: Seq<Position>, a: int, b: int, v: WithInfinity<u64>)
    requires
        0 <= a < open.len(),
        0 <= b < open.len(),
        entry_holds(open, a, b, v),
    ensures
        bounded(open, 0, a, b, v),
{
    assert forall|w: Seq<Position>|
        #[trigger] is_walk(open, w, open[a], open[b]) && within_first(open, 0, w) && w.len() - 1
            <= u64::MAX implies at_most(v, w.len() - 1) by {
        if w.len() >= 3 {
            assert(open.take(0).contains(w[1]));
        } else if w.len() == 2 {
            assert(adjacent_to(w[0], w[1]));
        }
    }
}

proof fn lemma_bounded_all(open: Seq<Position>, a: int, b: int, v: WithInfinity<u64>)
    requires
        bounded(open, open.len() as int, a, b, v),
    ensures
        no_shorter_walk(open, a, b, v),
{
    assert(open.take(open.len() as int) =~= open);
    assert forall|w: Seq<Position>|
        #[trigger] is_walk(open, w, open[a], open[b]) && w.len() - 1 <= u64::MAX implies at_most(
            v,
            w.len() - 1,
        ) by {
        assert forall|m: int| 0 < m < w.len() - 1 implies open.take(open.len() as int).contains(
            #[trigger] w[m],
        ) by {
            assert(open.contains(w[m]));
        }
        assert(within_first(open, open.len() as int, w));
    }
}

/// The distance that a single step or none gives a pair of tiles.
fn initial_distance(a: Position, b: Position) -> (r: WithInfinity<u64>)
    ensures
        a == b ==> r == WithInfinity::Normal(0u64),
        a != b && adjacent_to(a, b) ==> r == WithInfinity::Normal(1u64),
        a != b && !adjacent_to(a, b) ==> r is Infinity,
{
    if a == b {
        WithInfinity::Normal(0)
    } else if a.is_adjacent_to(b) {
        WithInfinity::Normal(1)
    } else {
        WithInfinity::Infinity
    }
}

/// Builds the table of shortest distances between all pairs of `open_positions`: one step
/// between adjacent tiles, then relaxation through every tile in turn (Floyd-Warshall). Its
/// cost is cubic in the number of tiles; build it once per static map.
#[verifier::rlimit(40)]
pub fn all_pairs_shortest_paths(open_positions: &Vec<Position>) -> (r: AllPairsShortestPaths)
    requires
        open_positions@.len() * open_positions@.len() <= usize::MAX,
    ensures
        r.tiles() == open_positions@,
        r.wf(),
        forall|i: int, j: int|
            0 <= i < open_positions@.len() && 0 <= j < open_positions@.len() ==> entry_holds(
                open_positions@,
                i,
                j,
                #[trigger] r.entry(i, j),
            ),
        forall|i: int, j: int|
            0 <= i < open_positions@.len() && 0 <= j < open_positions@.len() && adjacent_to(
                open_positions@[i],
                open_positions@[j],
            ) ==> #[trigger] r.entry(i, j) == WithInfinity::Normal(1u64),
        forall|i: int, j: int|
            0 <= i < open_positions@.len() && 0 <= j < open_positions@.len() ==> no_shorter_walk(
                open_positions@,
                i,
                j,
                #[trigger] r.entry(i, j),
            ),
        r.exact_for(open_positions@),
        r.exact_lookup(open_positions@),
{
    let ghost open = open_positions@;
    let n = open_positions.len();
    let mut d: Vec<WithInfinity<u64>> = Vec::new();
    let mut i: usize = 0;
    while i < n
        invariant
            n == open.len(),
            open == open_positions@,
            n * n <= usize::MAX,
            i <= n,
            d@.len() == i * n,
            forall|a: int, b: int|
                0 <= a < n && 0 <= b < n && a * n + b < i * n ==> entry_holds(
                    open,
                    a,
                    b,
                    #[trigger] d@[a * n + b],
                ),
        decreases n - i,
    {
        let mut j: usize = 0;
        while j < n
            invariant
                n == open.len(),
                open == open_positions@,
                n * n <= usize::MAX,
                i < n,
                j <= n,
                d@.len() == i * n + j,
                forall|a: int, b: int|
                    0 <= a < n && 0 <= b < n && a * n + b < i * n + j ==> entry_holds(
                        open,
                        a,
                        b,
                        #[trigger] d@[a * n + b],
                    ),
            decreases n - j,
        {
            proof {
                lemma_index_bound(i as int, j as int, n as int);
            }
            let v = initial_distance(open_positions[i], open_positions[j]);
            proof {
                if let WithInfinity::Normal(x) = v {
                    let w = if x == 0 {
                        seq![open[i as int]]
                    } else {
                        seq![open[i as int], open[j as int]]
                    };
                    assert(is_walk(open, w, open[i as int], open[j as int]));
                }
            }
            let ghost old_d = d@;
            d.push(v);
            proof {
                assert forall|a: int, b: int|
                    0 <= a < n && 0 <= b < n && a * n + b < i * n + j + 1 implies entry_holds(
                    open,
                    a,
                    b,
                    #[trigger] d@[a * n + b],
                ) by {
                    if a * n + b == i * n + j {
                        lemma_index_unique(a, b, i as int, j as int, n as int);
                    } else {
                        assert(d@[a * n + b] == old_d[a * n + b]);
                    }
                }
            }
            j += 1;
        }
        proof {
            assert((i + 1) * n == i * n + n) by (nonlinear_arith);
        }
        i += 1;
    }
    proof {
        assert forall|a: int, b: int| 0 <= a < n && 0 <= b < n implies entry_holds(
            open,
            a,
            b,
            #[trigger] d@[a * n + b],
        ) by {
            lemma_index_bound(a, b, n as int);
        }
        assert forall|a: int, b: int| 0 <= a < n && 0 <= b < n implies bounded(
            open,
            0,
            a,
            b,
            #[trigger] d@[a * n + b],
        ) by {
            lemma_bounded_initial(open, a, b, d@[a * n + b]);
        }
    }
    let mut k: usize = 0;
    while k < n
        invariant
            n == open.len(),
            open == open_positions@,
            n * n <= usize::MAX,
            k <= n,
            d@.len() == n * n,
            forall|a: int, b: int|
                0 <= a < n && 0 <= b < n ==> entry_holds(open, a, b, #[trigger] d@[a * n + b]),
            forall|a: int, b: int|
                0 <= a < n && 0 <= b < n ==> bounded(open, k as int, a, b, #[trigger] d@[a * n + b]),
        decreases n - k,
    {
        let mut i: usize = 0;
        while i < n
            invariant
                n == open.len(),
                open == open_positions@,
                n * n <= usize::MAX,
                k < n,
                i <= n,
                d@.len() == n * n,
                forall|a: int, b: int|
                    0 <= a < n && 0 <= b < n ==> entry_holds(open, a, b, #[trigger] d@[a * n + b]),
                forall|a: int, b: int|
                    0 <= a < n && 0 <= b < n ==> bounded(open, k as int, a, b, #[trigger] d@[a * n + b]),
                forall|a: int, b: int|
                    0 <= a < i && 0 <= b < n ==> bounded(
                        open,
                        k + 1,
                        a,
                        b,
                        #[trigger] d@[a * n + b],
                    ),
            decreases n - i,
        {
            let mut j: usize = 0;
            while j < n
                invariant
                    n == open.len(),
                    open == open_positions@,
                    n * n <= usize::MAX,
                    k < n,
                    i < n,
                    j <= n,
                    d@.len() == n * n,
                    forall|a: int, b: int|
                        0 <= a < n && 0 <= b < n ==> entry_holds(
                            open,
                            a,
                            b,
                            #[trigger] d@[a * n + b],
                        ),
                    forall|a: int, b: int|
                        0 <= a < n && 0 <= b < n ==> bounded(
                            open,
                            k as int,
                            a,
                            b,
                            #[trigger] d@[a * n + b],
                        ),
                    forall|a: int, b: int|
                        0 <= a < n && 0 <= b < n && (a < i || (a == i && b < j)) ==> bounded(
                            open,
                            k + 1,
                            a,
                            b,
                            #[trigger] d@[a * n + b],
                        ),
                decreases n - j,
            {
                proof {
                    lemma_index_bound(i as int, k as int, n as int);
                    lemma_index_bound(k as int, j as int, n as int);
                    lemma_index_bound(i as int, j as int, n as int);
                }
                let ik = d[i * n + k];
                let kj = d[k * n + j];
                let ij = d[i * n + j];
                proof {
                    assert(bounded(open, k as int, i as int, k as int, d@[i * n + k]));
                    assert(bounded(open, k as int, k as int, j as int, d@[k * n + j]));
                    assert(bounded(open, k as int, i as int, j as int, d@[i * n + j]));
                }
                let ghost d_before = d@;
                if let Some(c) = ik.checked_plus(kj) {
                    if c.is_less_than(ij) {
                        proof {
                            assert(entry_holds(open, i as int, k as int, d@[i * n + k]));
                            assert(entry_holds(open, k as int, j as int, d@[k * n + j]));
                            assert(entry_holds(open, i as int, j as int, d@[i * n + j]));
                            if let (WithInfinity::Normal(p), WithInfinity::Normal(q)) = (ik, kj) {
                                lemma_walk_concat(
                                    open,
                                    open[i as int],
                                    open[k as int],
                                    open[j as int],
                                    p as int,
                                    q as int,
                                );
                            }
                        }
                        let ghost old_d = d@;
                        d.set(i * n + j, c);
                        proof {
                            assert forall|a: int, b: int| 0 <= a < n && 0 <= b < n implies entry_holds(
                                open,
                                a,
                                b,
                                #[trigger] d@[a * n + b],
                            ) by {
                                lemma_index_bound(a, b, n as int);
                                if a * n + b == i * n + j {
                                    lemma_index_unique(a, b, i as int, j as int, n as int);
                                } else {
                                    assert(d@[a * n + b] == old_d[a * n + b]);
                                }
                            }
                        }
                    }
                }
                proof {
                    let nv = d@[i * n + j];
                    assert(nv == ij || ext_lt(nv, ij));
                    assert(relaxed(ik, kj, nv));
                    lemma_relax_bound(open, k as int, i as int, j as int, ik, kj, ij, nv);
                    assert forall|a: int, b: int| 0 <= a < n && 0 <= b < n implies bounded(
                        open,
                        k as int,
                        a,
                        b,
                        #[trigger] d@[a * n + b],
                    ) && ((a < i || (a == i && b < j + 1)) ==> bounded(
                        open,
                        k + 1,
                        a,
                        b,
                        d@[a * n + b],
                    )) by {
                        lemma_index_bound(a, b, n as int);
                        if a * n + b == i * n + j {
                            lemma_index_unique(a, b, i as int, j as int, n as int);
                            lemma_bounded_mono(open, k as int, a, b, ij, nv);
                        } else {
                            assert(d@[a * n + b] == d_before[a * n + b]);
                            if a == i && b >= j {
                                assert(b != j);
                            }
                        }
                    }
                }
                j += 1;
            }
            i += 1;
        }
        k += 1;
    }
    let r = AllPairsShortestPaths { positions: open_positions.clone(), distances: d };
    proof {
        assert forall|i: int, j: int|
            0 <= i < n && 0 <= j < n && adjacent_to(open[i], open[j]) implies #[trigger] r.entry(i, j)
            == WithInfinity::Normal(1u64) by {
            assert(entry_holds(open, i, j, d@[i * n + j]));
            if r.entry(i, j) == WithInfinity::Normal(0u64) {
                lemma_walk_empty(open, open[i], open[j]);
            }
        }
        assert forall|i: int, j: int| 0 <= i < n && 0 <= j < n implies no_shorter_walk(
            open,
            i,
            j,
            #[trigger] r.entry(i, j),
        ) by {
            assert(bounded(open, n as int, i, j, d@[i * n + j]));
            lemma_bounded_all(open, i, j, d@[i * n + j]);
        }
        assert(r.exact_for(open));
        if n > 0 {
            assert(n <= n * n) by (nonlinear_arith)
                requires
                    n > 0,
            ;
        }
        assert(usize::MAX <= u64::MAX);
        lemma_exact_lookup(r, open);
    }
    r
}

/// `v` is the length of a shortest walk from `a` to `b` through `open`, or `Infinity` when no
/// walk leads there.
pub open spec fn shortest_is(open: Seq<Position>, a: Position, b: Position, v: WithInfinity<u64>) -> bool {
    &&& (v is Infinity <==> !reachable(open, a, b))
    &&& (v matches WithInfinity::Normal(d) ==> has_walk(open, a, b, d as int))
    &&& forall|w: Seq<Position>| #[trigger] is_walk(open, w, a, b) ==> at_most(v, w.len() - 1)
}

impl AllPairsShortestPaths {
    /// Looking up a pair of tiles gives `Some` exactly when both are in `open`, and then the
    /// shortest distance between them through `open`.
    pub open spec fn exact_lookup(&self, open: Seq<Position>) -> bool {
        &&& forall|a: Position, b: Position|
            #[trigger] self.lookup(a, b) is Some <==> open.contains(a) && open.contains(b)
        &&& forall|a: Position, b: Position|
            open.contains(a) && open.contains(b) ==> shortest_is(
                open,
                a,
                b,
                #[trigger] self.lookup(a, b).unwrap(),
            )
    }
}

proof fn lemma_exact_lookup(t: AllPairsShortestPaths, open: Seq<Position>)
    requires
        t.exact_for(open),
        open.len() <= u64::MAX,
    ensures
        t.exact_lookup(open),
{
    assert forall|a: Position, b: Position|
        #[trigger] t.lookup(a, b) is Some <==> open.contains(a) && open.contains(b) by {
        open.index_of_first_ensures(a);
        open.index_of_first_ensures(b);
    }
    assert forall|a: Position, b: Position|
        open.contains(a) && open.contains(b) implies shortest_is(
        open,
        a,
        b,
        #[trigger] t.lookup(a, b).unwrap(),
    ) by {
        open.index_of_first_ensures(a);
        open.index_of_first_ensures(b);
        let i = open.index_of_first(a).unwrap();
        let j = open.index_of_first(b).unwrap();
        let v = t.entry(i, j);
        assert(t.lookup(a, b) == Some(v));
        assert(entry_holds(open, i, j, v));
        assert(no_shorter_walk(open, i, j, v));
        assert forall|w: Seq<Position>| #[trigger] is_walk(open, w, a, b) implies at_most(
            v,
            w.len() - 1,
        ) by {
            if w.len() - 1 > u64::MAX {
                lemma_shortcut(open, w, a, b);
                let u = choose|u: Seq<Position>| is_walk(open, u, a, b) && u.len() <= open.len() + 1;
                assert(at_most(v, u.len() - 1));
            } else {
                assert(is_walk(open, w, open[i], open[j]));
            }
        }
        if reachable(open, a, b) {
            let d = choose|d: int| has_walk(open, a, b, d);
            let w = choose|w: Seq<Position>| is_walk(open, w, a, b) && w.len() == d + 1;
            assert(at_most(v, w.len() - 1));
        }
        if let WithInfinity::Normal(d) = v {
            assert(has_walk(open, a, b, d as int));
        }
    }
}

impl AllPairsShortestPaths {
    /// The table holds the tiles of `open`, and for each pair of them the length of a shortest
    /// walk between them, or `Infinity` where no walk of at most `u64::MAX` steps exists.
    pub closed spec fn exact_for(&self, open: Seq<Position>) -> bool {
        &&& self.positions@ == open
        &&& self.wf()
        &&& forall|i: int, j: int|
            0 <= i < open.len() && 0 <= j < open.len() ==> entry_holds(open, i, j, #[trigger] self.entry(i, j))
        &&& forall|i: int, j: int|
            0 <= i < open.len() && 0 <= j < open.len() ==> no_shorter_walk(open, i, j, #[trigger] self.entry(i, j))
    }
}

/// Building the table twice from the same tiles gives identical tables: each entry is fixed by
/// the tiles alone.
pub proof fn lemma_table_deterministic(
    open: Seq<Position>,
    t1: AllPairsShortestPaths,
    t2: AllPairsShortestPaths,
)
    requires
        t1.exact_for(open),
        t2.exact_for(open),
    ensures
        t1.tiles() == t2.tiles(),
        t1.table() == t2.table(),
        forall|a: Position, b: Position| #[trigger] t1.lookup(a, b) == t2.lookup(a, b),
{
    let n = open.len() as int;
    assert forall|i: int, j: int| 0 <= i < n && 0 <= j < n implies t1.entry(i, j) == t2.entry(i, j) by {
        let e1 = t1.entry(i, j);
        let e2 = t2.entry(i, j);
        assert(entry_holds(open, i, j, e1));
        assert(entry_holds(open, i, j, e2));
        assert(no_shorter_walk(open, i, j, e1));
        assert(no_shorter_walk(open, i, j, e2));
        if let WithInfinity::Normal(d1) = e1 {
            let w = choose|w: Seq<Position>| is_walk(open, w, open[i], open[j]) && w.len() == d1 + 1;
            assert(at_most(e2, w.len() - 1));
        }
        if let WithInfinity::Normal(d2) = e2 {
            let w = choose|w: Seq<Position>| is_walk(open, w, open[i], open[j]) && w.len() == d2 + 1;
            assert(at_most(e1, w.len() - 1));
        }
    }
    assert forall|t: int| 0 <= t < t1.distances@.len() implies t1.distances@[t] == t2.distances@[t] by {
        vstd::arithmetic::div_mod::lemma_fundamental_div_mod(t, n);
        vstd::arithmetic::div_mod::lemma_mod_pos_bound(t, n);
        let i = t / n;
        let j = t % n;
        assert(0 <= i < n) by (nonlinear_arith)
            requires
                t == n * i + j,
                0 <= j < n,
                0 <= t < n * n,
        ;
        assert(t == i * n + j) by (nonlinear_arith)
            requires
                t == n * i + j,
        ;
        assert(t1.entry(i, j) == t2.entry(i, j));
    }
    assert(t1.distances@ =~= t2.distances@);
    assert(t1.table() == t2.table());
}

/// The table is an admissible heuristic for any tiles open among those it was built from: no
/// walk through them between two of its tiles is shorter than the recorded distance.
pub proof fn lemma_table_admissible(
    table: AllPairsShortestPaths,
    static_open: Seq<Position>,
    dynamic_open: Seq<Position>,
    w: Seq<Position>,
    a: Position,
    b: Position,
)
    requires
        table.exact_for(static_open),
        forall|p: Position| dynamic_open.contains(p) ==> static_open.contains(p),
        static_open.contains(a),
        static_open.contains(b),
        is_walk(dynamic_open, w, a, b),
        w.len() - 1 <= u64::MAX,
    ensures
        table.lookup(a, b) matches Some(v) && at_most(v, w.len() - 1),
{
    static_open.index_of_first_ensures(a);
    static_open.index_of_first_ensures(b);
    let i = static_open.index_of_first(a).unwrap();
    let j = static_open.index_of_first(b).unwrap();
    assert(is_walk(static_open, w, static_open[i], static_open[j]));
    assert(no_shorter_walk(static_open, i, j, table.entry(i, j)));
}

/// With the table built from the statically open tiles, A* over any subset of them that holds
/// the start and the end has an admissible heuristic, and so returns a shortest path.
pub proof fn lemma_table_heuristic_admissible(
    table: AllPairsShortestPaths,
    static_open: Seq<Position>,
    dynamic_open: Seq<Position>,
    start: Position,
    end: Position,
)
    requires
        table.exact_for(static_open),
        forall|p: Position| dynamic_open.contains(p) ==> static_open.contains(p),
        static_open.contains(start),
        static_open.contains(end),
    ensures
        admissible(&table, dynamic_open, start, end),
{
    assert forall|x: Position, v: Seq<Position>|
        (dynamic_open.contains(x) || x == start) && #[trigger] is_walk(dynamic_open, v, x, end)
            && v.len() - 1 <= u64::MAX implies (table.estimate(x, end) matches WithInfinity::Normal(
        h,
    ) && h <= v.len() - 1) by {
        lemma_table_admissible(table, static_open, dynamic_open, v, x, end);
    }
}


/// A tile is at distance zero from itself, and from no other tile.
pub proof fn lemma_lookup_zero(t: AllPairsShortestPaths, open: Seq<Position>, a: Position, b: Position)
    requires
        t.exact_lookup(open),
        open.contains(a),
        open.contains(b),
    ensures
        t.lookup(a, a) == Some(WithInfinity::Normal(0u64)),
        a != b ==> t.lookup(a, b) != Some(WithInfinity::Normal(0u64)),
{
    assert(t.lookup(a, a) is Some);
    assert(shortest_is(open, a, a, t.lookup(a, a).unwrap()));
    assert(is_walk(open, seq![a], a, a));
    assert(t.lookup(a, b) is Some);
    assert(shortest_is(open, a, b, t.lookup(a, b).unwrap()));
    if t.lookup(a, b) == Some(WithInfinity::Normal(0u64)) {
        lemma_walk_empty(open, a, b);
    }
}

/// The distance from `a` to `b` is the distance from `b` to `a`.
pub proof fn lemma_lookup_symmetric(t: AllPairsShortestPaths, open: Seq<Position>, a: Position, b: Position)
    requires
        t.exact_lookup(open),
        open.contains(a),
        open.contains(b),
    ensures
        t.lookup(a, b) == t.lookup(b, a),
{
    assert(t.lookup(a, b) is Some && t.lookup(b, a) is Some);
    let v1 = t.lookup(a, b).unwrap();
    let v2 = t.lookup(b, a).unwrap();
    assert(shortest_is(open, a, b, v1));
    assert(shortest_is(open, b, a, v2));
    if let WithInfinity::Normal(d1) = v1 {
        let w = choose|w: Seq<Position>| is_walk(open, w, a, b) && w.len() == d1 + 1;
        lemma_walk_reverse(open, w, a, b);
        assert(at_most(v2, w.reverse().len() - 1));
    }
    if let WithInfinity::Normal(d2) = v2 {
        let w = choose|w: Seq<Position>| is_walk(open, w, b, a) && w.len() == d2 + 1;
        lemma_walk_reverse(open, w, b, a);
        assert(at_most(v1, w.reverse().len() - 1));
    }
}

/// No recorded distance is below the Hamming distance.
pub proof fn lemma_lookup_hamming(t: AllPairsShortestPaths, open: Seq<Position>, a: Position, b: Position)
    requires
        t.exact_lookup(open),
    ensures
        t.lookup(a, b) matches Some(WithInfinity::Normal(d)) ==> hamming(a, b) <= d,
{
    if let Some(WithInfinity::Normal(d)) = t.lookup(a, b) {
        assert(shortest_is(open, a, b, t.lookup(a, b).unwrap()));
        let w = choose|w: Seq<Position>| is_walk(open, w, a, b) && w.len() == d + 1;
        lemma_hamming_admissible(open, w, a, b);
    }
}

/// Closing tiles never shortens a distance: between tiles of `smaller`, a subset of `larger`,
/// the table over `larger` gives at most the distance of the table over `smaller`.
pub proof fn lemma_lookup_monotone(
    t_large: AllPairsShortestPaths,
    larger: Seq<Position>,
    t_small: AllPairsShortestPaths,
    smaller: Seq<Position>,
    a: Position,
    b: Position,
)
    requires
        t_large.exact_lookup(larger),
        t_small.exact_lookup(smaller),
        forall|p: Position| smaller.contains(p) ==> larger.contains(p),
        smaller.contains(a),
        smaller.contains(b),
    ensures
        t_large.lookup(a, b) is Some && t_small.lookup(a, b) is Some,
        t_large.lookup(a, b).unwrap() == t_small.lookup(a, b).unwrap() || ext_lt(
            t_large.lookup(a, b).unwrap(),
            t_small.lookup(a, b).unwrap(),
        ),
{
    assert(t_large.lookup(a, b) is Some && t_small.lookup(a, b) is Some);
    let vl = t_large.lookup(a, b).unwrap();
    let vs = t_small.lookup(a, b).unwrap();
    assert(shortest_is(larger, a, b, vl));
    assert(shortest_is(smaller, a, b, vs));
    if let WithInfinity::Normal(d) = vs {
        let w = choose|w: Seq<Position>| is_walk(smaller, w, a, b) && w.len() == d + 1;
        assert(is_walk(larger, w, a, b));
        assert(at_most(vl, w.len() - 1));
    }
}

/// The triangle inequality: the distance from `a` to `c` is at most the distance from `a` to
/// `b` plus the distance from `b` to `c`.
pub proof fn lemma_lookup_triangle(
    t: AllPairsShortestPaths,
    open: Seq<Position>,
    a: Position,
    b: Position,
    c: Position,
)
    requires
        t.exact_lookup(open),
        open.contains(a),
        open.contains(b),
        open.contains(c),
    ensures
        (t.lookup(a, b), t.lookup(b, c)) matches (
            Some(WithInfinity::Normal(x)),
            Some(WithInfinity::Normal(y)),
        ) ==> t.lookup(a, c) matches Some(WithInfinity::Normal(z)) && z <= x + y,
{
    assert(t.lookup(a, b) is Some && t.lookup(b, c) is Some && t.lookup(a, c) is Some);
    assert(shortest_is(open, a, b, t.lookup(a, b).unwrap()));
    assert(shortest_is(open, b, c, t.lookup(b, c).unwrap()));
    assert(shortest_is(open, a, c, t.lookup(a, c).unwrap()));
    if let (Some(WithInfinity::Normal(x)), Some(WithInfinity::Normal(y))) = (
        t.lookup(a, b),
        t.lookup(b, c),
    ) {
        lemma_walk_concat(open, a, b, c, x as int, y as int);
        let w = choose|w: Seq<Position>| is_walk(open, w, a, c) && w.len() == x + y + 1;
        assert(at_most(t.lookup(a, c).unwrap(), w.len() - 1));
    }
}

/// Two tables exact for the same tiles give the same answer for every pair of tiles.
pub proof fn lemma_lookup_deterministic(
    t1: AllPairsShortestPaths,
    t2: AllPairsShortestPaths,
    open: Seq<Position>,
    a: Position,
    b: Position,
)
    requires
        t1.exact_lookup(open),
        t2.exact_lookup(open),
    ensures
        t1.lookup(a, b) == t2.lookup(a, b),
{
    if open.contains(a) && open.contains(b) {
        let v1 = t1.lookup(a, b).unwrap();
        let v2 = t2.lookup(a, b).unwrap();
        assert(shortest_is(open, a, b, v1));
        assert(shortest_is(open, a, b, v2));
        if let WithInfinity::Normal(d1) = v1 {
            let w = choose|w: Seq<Position>| is_walk(open, w, a, b) && w.len() == d1 + 1;
            assert(at_most(v2, w.len() - 1));
        }
        if let WithInfinity::Normal(d2) = v2 {
            let w = choose|w: Seq<Position>| is_walk(open, w, a, b) && w.len() == d2 + 1;
            assert(at_most(v1, w.len() - 1));
        }
    } else {
        assert(t1.lookup(a, b) is None);
        assert(t2.lookup(a, b) is None);
    }
}

} // verus!
