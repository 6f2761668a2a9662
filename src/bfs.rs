//! # Breadth first search
//!
//! Labels the tiles reachable from a start with their distance from it, nearest first.
use crate::walk::{
    has_walk, index_of, is_walk, lemma_hamming_admissible, lemma_unique_within, lemma_walk_concat,
    reachable,
};
use crate::position::{adjacent_to, hamming, lex_lt, Position};
use vstd::prelude::*;

verus! {

/// A breadth first search over a set of open tiles. Each call of [`Bfs::next`] hands out the
/// next reachable tile with its distance from the start, in order of distance; among tiles at
/// the same distance, the first in the order on [`Position`] comes first.
pub struct Bfs<'a> {
    open_positions: &'a Vec<Position>,
    visited: Vec<Position>,
    distance: u64,
    current_frontier: Vec<Position>,
    next_frontier: Vec<Position>,
    emitted: Ghost<Seq<Position>>,
    origin: Ghost<Position>,
    labels: Ghost<Map<Position, int>>,
}

impl<'a> Bfs<'a> {
    /// The open tiles searched.
    pub closed spec fn open(&self) -> Seq<Position> {
        self.open_positions@
    }

    /// The tiles handed out so far, in order.
    pub closed spec fn yielded(&self) -> Seq<Position> {
        self.emitted@
    }

    /// The tile the search started from.
    pub closed spec fn start(&self) -> Position {
        self.origin@
    }

    /// The distance of the layer being handed out.
    pub closed spec fn layer(&self) -> u64 {
        self.distance
    }

    /// The tiles of the current layer not yet handed out.
    pub closed spec fn frontier(&self) -> Seq<Position> {
        self.current_frontier@
    }

    /// Both layers are empty: every further call returns `None`.
    pub closed spec fn finished(&self) -> bool {
        self.current_frontier@.len() == 0 && self.next_frontier@.len() == 0
    }

    /// The distance at which a tile found was, or will be, handed out.
    pub closed spec fn layer_of(&self, q: Position) -> int {
        if self.emitted@.contains(q) {
            self.labels@[q]
        } else if self.current_frontier@.contains(q) {
            self.distance as int
        } else {
            self.distance + 1
        }
    }

    /// Every open tile adjacent to the handed out tile `p` has been found, at a distance at most
    /// one more than that of `p`.
    pub closed spec fn expanded(&self, p: Position) -> bool {
        forall|q: Position|
            self.open_positions@.contains(q) && #[trigger] adjacent_to(p, q)
                ==> self.visited@.contains(q) && self.layer_of(q) <= self.labels@[p] + 1
    }

    /// Each tile found is handed out, waits in the current layer, or waits in the next one, in
    /// one place only; all of them are open.
    pub closed spec fn wf(&self) -> bool {
        &&& self.wf_core()
        &&& forall|p: Position| #[trigger]
            self.emitted@.contains(p) ==> self.labels@[p] <= self.distance && self.expanded(p)
    }

    closed spec fn wf_core(&self) -> bool {
        let y = self.emitted@;
        let c = self.current_frontier@;
        let nx = self.next_frontier@;
        let open = self.open_positions@;
        &&& self.visited@.len() == y.len() + c.len() + nx.len()
        &&& y.len() >= self.distance
        &&& (nx.len() > 0 ==> y.len() >= self.distance + 1)
        &&& y.no_duplicates()
        &&& c.no_duplicates()
        &&& nx.no_duplicates()
        &&& forall|p: Position| #[trigger]
            c.contains(p) ==> self.visited@.contains(p) && !y.contains(p) && !nx.contains(p)
                && open.contains(p)
        &&& forall|p: Position| #[trigger]
            nx.contains(p) ==> self.visited@.contains(p) && !y.contains(p) && open.contains(p)
        &&& forall|p: Position| #[trigger]
            y.contains(p) ==> self.visited@.contains(p) && open.contains(p)
        &&& forall|p: Position| #[trigger]
            c.contains(p) ==> has_walk(open, self.origin@, p, self.distance as int)
        &&& forall|p: Position| #[trigger]
            nx.contains(p) ==> has_walk(open, self.origin@, p, self.distance + 1)
        &&& forall|p: Position| #[trigger]
            self.visited@.contains(p) ==> y.contains(p) || c.contains(p) || nx.contains(p)
        &&& (open.contains(self.origin@) ==> self.visited@.contains(self.origin@)
            && self.layer_of(self.origin@) == 0)
        &&& (self.visited@.len() > 0 ==> open.contains(self.origin@))
        &&& forall|p: Position| #[trigger]
            y.contains(p) ==> has_walk(open, self.origin@, p, self.labels@[p])
    }

    /// Starts a search from `start`; nothing is found when `start` is not open.
    pub fn new(open_positions: &'a Vec<Position>, start: Position) -> (r: Self)
        ensures
            r.wf(),
            r.open() == open_positions@,
            r.yielded() == Seq::<Position>::empty(),
            r.layer() == 0,
            r.start() == start,
            r.finished() == !open_positions@.contains(start),
            r.frontier() == (if open_positions@.contains(start) {
                seq![start]
            } else {
                Seq::<Position>::empty()
            }),
    {
        let mut current_frontier: Vec<Position> = Vec::new();
        let mut visited: Vec<Position> = Vec::new();
        proof {
            open_positions@.index_of_first_ensures(start);
        }
        if index_of(open_positions, start).is_some() {
            current_frontier.push(start);
            visited.push(start);
        }
        let r = Bfs {
            open_positions,
            visited,
            distance: 0,
            current_frontier,
            next_frontier: Vec::new(),
            emitted: Ghost(Seq::empty()),
            origin: Ghost(start),
            labels: Ghost(Map::empty()),
        };
        proof {
            assert(r.current_frontier@.len() <= 1);
            if r.current_frontier@.len() == 1 {
                assert(r.current_frontier@ == seq![start]);
                assert forall|p: Position| r.current_frontier@.contains(p) implies p == start by {
                    let i = choose|i: int|
                        0 <= i < r.current_frontier@.len() && r.current_frontier@[i] == p;
                }
                assert(r.visited@[0] == start);
                assert(is_walk(open_positions@, seq![start], start, start));
            }
        }
        r
    }

    /// The `m`-th tile of a walk from the start, within the current distance, has been found at
    /// a distance of at most `m`.
    proof fn lemma_yielded_reachable(&self)
        requires
            self.wf(),
        ensures
            forall|t: Position| #[trigger]
                self.emitted@.contains(t) ==> reachable(self.open_positions@, self.origin@, t),
    {
        assert forall|t: Position| #[trigger] self.emitted@.contains(t) implies reachable(
            self.open_positions@,
            self.origin@,
            t,
        ) by {
            assert(has_walk(self.open_positions@, self.origin@, t, self.labels@[t]));
        }
    }

    proof fn lemma_walk_layers(&self, w: Seq<Position>, t: Position, m: int)
        requires
            self.wf(),
            self.open_positions@.contains(self.origin@),
            is_walk(self.open_positions@, w, self.origin@, t),
            0 <= m < w.len(),
            m <= self.distance,
        ensures
            self.visited@.contains(w[m]),
            self.layer_of(w[m]) <= m,
        decreases m,
    {
        if m > 0 {
            self.lemma_walk_layers(w, t, m - 1);
            let p = w[m - 1];
            assert(self.emitted@.contains(p));
            assert(self.expanded(p));
            assert(self.open_positions@.contains(w[m]) && adjacent_to(p, w[m]));
        }
    }

    /// Once both layers are empty, every tile of a walk from the start has been handed out.
    proof fn lemma_walk_found(&self, w: Seq<Position>, t: Position, m: int)
        requires
            self.wf(),
            self.current_frontier@.len() == 0,
            self.next_frontier@.len() == 0,
            self.open_positions@.contains(self.origin@),
            is_walk(self.open_positions@, w, self.origin@, t),
            0 <= m < w.len(),
        ensures
            self.emitted@.contains(w[m]),
        decreases m,
    {
        if m > 0 {
            self.lemma_walk_found(w, t, m - 1);
            let p = w[m - 1];
            assert(self.expanded(p));
            assert(self.open_positions@.contains(w[m]) && adjacent_to(p, w[m]));
            assert(self.visited@.contains(w[m]));
        } else {
            assert(self.visited@.contains(w[0]));
        }
    }

    /// When every open tile is reachable from an open start and `open` has no repeats, a
    /// finished search has handed out every open tile exactly once, as on a fully open grid.
    pub proof fn lemma_finished_covers(&self)
        requires
            self.wf(),
            self.finished(),
            self.open().no_duplicates(),
            self.open().contains(self.start()),
            forall|t: Position| #[trigger]
                self.open().contains(t) ==> reachable(self.open(), self.start(), t),
        ensures
            self.yielded().no_duplicates(),
            forall|t: Position| #[trigger] self.yielded().contains(t) <==> self.open().contains(t),
            self.yielded().len() == self.open().len(),
    {
        let open = self.open_positions@;
        assert forall|t: Position| #[trigger] open.contains(t) implies self.emitted@.contains(t) by {
            assert(reachable(open, self.origin@, t));
            let d = choose|d: int| has_walk(open, self.origin@, t, d);
            let w = choose|w: Seq<Position>| is_walk(open, w, self.origin@, t) && w.len() == d + 1;
            self.lemma_walk_found(w, t, w.len() - 1);
        }
        lemma_unique_within(self.emitted@, open);
        lemma_unique_within(open, self.emitted@);
    }

    /// The next tile found, with its distance from the start, or `None` when every reachable
    /// tile has been handed out. A tile is handed out once only, at a distance no lower than
    /// the one before; within a layer the tiles come in the order on [`Position`].
    pub fn next(&mut self) -> (r: Option<(Position, u64)>)
        requires
            old(self).wf(),
        ensures
            final(self).wf(),
            final(self).open() == old(self).open(),
            final(self).start() == old(self).start(),
            r is None ==> final(self).yielded() == old(self).yielded() && old(
                self,
            ).frontier().len() == 0,
            old(self).finished() ==> r is None,
            r is None ==> final(self).finished(),
            r is Some ==> old(self).open().contains(old(self).start()),
            final(self).yielded().len() <= final(self).open().len(),
            final(self).yielded().no_duplicates(),
            forall|t: Position| #[trigger] final(self).yielded().contains(t) ==> final(self).open().contains(t),
            forall|t: Position| #[trigger]
                final(self).yielded().contains(t) ==> reachable(final(self).open(), final(self).start(), t),
            r is None ==> forall|w: Seq<Position>, t: Position|
                old(self).open().contains(old(self).start()) && #[trigger] is_walk(
                    old(self).open(),
                    w,
                    old(self).start(),
                    t,
                ) ==> final(self).yielded().contains(t),
            r matches Some((p, d)) ==> {
                &&& !old(self).yielded().contains(p)
                &&& final(self).yielded() == old(self).yielded().push(p)
                &&& old(self).open().contains(p)
                &&& has_walk(old(self).open(), old(self).start(), p, d as int)
                &&& forall|w: Seq<Position>| #[trigger]
                    is_walk(old(self).open(), w, old(self).start(), p) ==> w.len() - 1 >= d
                &&& d >= old(self).layer()
                &&& (old(self).frontier().len() > 0 ==> d == old(self).layer())
                &&& final(self).layer() == d
                &&& (d == old(self).layer() ==> old(self).frontier().contains(p) && forall|
                    q: Position,
                | #[trigger] old(self).frontier().contains(q) ==> !lex_lt(q, p))
                &&& forall|q: Position| #[trigger]
                    final(self).frontier().contains(q) ==> !lex_lt(q, p) && q != p
            },
    {
        let ghost open0 = self.open_positions@;
        let ghost origin0 = self.origin@;
        if self.current_frontier.len() == 0 {
            if self.next_frontier.len() == 0 {
                proof {
                    assert forall|w: Seq<Position>, t: Position|
                        self.open_positions@.contains(self.origin@) && #[trigger] is_walk(
                            self.open_positions@,
                            w,
                            self.origin@,
                            t,
                        ) implies self.emitted@.contains(t) by {
                        self.lemma_walk_found(w, t, w.len() - 1);
                    }
                    self.lemma_yielded_reachable();
                    lemma_unique_within(self.emitted@, self.open_positions@);
                }
                return None;
            }
            let visited_len = self.visited.len();
            assert(self.distance + 1 <= visited_len);
            std::mem::swap(&mut self.current_frontier, &mut self.next_frontier);
            self.distance = self.distance + 1;
        }
        let ghost c0 = self.current_frontier@;
        let mut best: usize = 0;
        let mut i: usize = 1;
        while i < self.current_frontier.len()
            invariant
                self.current_frontier@ == c0,
                c0.len() > 0,
                best < c0.len(),
                1 <= i <= c0.len(),
                forall|j: int| 0 <= j < i ==> !lex_lt(#[trigger] c0[j], c0[best as int]),
            decreases c0.len() - i,
        {
            if self.current_frontier[i].precedes(self.current_frontier[best]) {
                best = i;
            }
            i += 1;
        }
        let cursor = self.current_frontier.remove(best);
        proof {
            assert(c0.contains(cursor));
            assert forall|q: Position| #[trigger] c0.contains(q) implies !lex_lt(q, cursor) by {
                let j = choose|j: int| 0 <= j < c0.len() && c0[j] == q;
            }
            lemma_remove_unique(c0, best as int);
        }
        let ghost old_emitted = self.emitted@;
        let ghost d1 = self.distance;
        self.emitted = Ghost(self.emitted@.push(cursor));
        self.labels = Ghost(self.labels@.insert(cursor, self.distance as int));
        proof {
            lemma_push_unique(old_emitted, cursor);
        }
        let adj = cursor.adjacent();
        proof {
            crate::position::lemma_neighbours(cursor);
        }
        let mut k: usize = 0;
        while k < adj.len()
            invariant
                self.wf_core(),
                forall|p: Position| #[trigger]
                    self.emitted@.contains(p) && p != cursor ==> self.labels@[p] <= self.distance
                        && self.expanded(p),
                self.labels@[cursor] == self.distance,
                forall|j: int|
                    0 <= j < k && open0.contains(#[trigger] adj@[j]) ==> self.visited@.contains(adj@[j])
                        && self.layer_of(adj@[j]) <= self.distance + 1,
                k <= adj@.len(),
                adj@ == crate::position::neighbours(cursor),
                self.open_positions@ == open0,
                self.origin@ == origin0,
                forall|q: Position| adj@.contains(q) ==> adjacent_to(cursor, q),
                has_walk(open0, origin0, cursor, d1 as int),
                open0.contains(cursor),
                self.emitted@ == old_emitted.push(cursor),
                self.current_frontier@ == c0.remove(best as int),
                best < c0.len(),
                self.distance == d1,
                self.emitted@.len() >= self.distance + 1,
                c0.contains(cursor),
                forall|q: Position| #[trigger] c0.contains(q) ==> !lex_lt(q, cursor),
            decreases adj.len() - k,
        {
            let neighbour = adj[k];
            proof {
                self.open_positions@.index_of_first_ensures(neighbour);
                self.visited@.index_of_first_ensures(neighbour);
            }
            if index_of(self.open_positions, neighbour).is_some() && index_of(
                &self.visited,
                neighbour,
            ).is_none() {
                let ghost nx0 = self.next_frontier@;
                let ghost v0 = self.visited@;
                assert(!self.current_frontier@.contains(neighbour));
                assert(!self.emitted@.contains(neighbour));
                assert(!nx0.contains(neighbour));
                self.next_frontier.push(neighbour);
                self.visited.push(neighbour);
                proof {
                    lemma_push_unique(nx0, neighbour);
                    lemma_push_unique(v0, neighbour);
                    assert(open0.contains(neighbour));
                    assert(adj@.contains(neighbour));
                    assert(is_walk(open0, seq![cursor, neighbour], cursor, neighbour));
                    lemma_walk_concat(open0, origin0, cursor, neighbour, d1 as int, 1);
                }
            }
            k += 1;
        }
        proof {
            self.lemma_yielded_reachable();
            lemma_unique_within(self.emitted@, self.open_positions@);
            assert forall|q: Position| #[trigger] self.current_frontier@.contains(q) implies !lex_lt(
                q,
                cursor,
            ) && q != cursor by {
                assert(c0.contains(q));
            }
            assert(self.emitted@.contains(cursor));
            assert(self.open_positions@.contains(self.origin@));
            assert forall|w: Seq<Position>| #[trigger]
                is_walk(self.open_positions@, w, self.origin@, cursor) implies w.len() - 1
                >= self.distance by {
                if w.len() - 1 < self.distance {
                    self.lemma_walk_layers(w, cursor, w.len() - 1);
                }
            }
        }
        Some((cursor, self.distance))
    }
}

/// A distance handed out by the search is the Hamming distance from the start wherever some walk
/// through open tiles is that short, as everywhere on a fully open grid: the search gives the
/// least walk length, and no walk is shorter than the Hamming distance.
pub proof fn lemma_distance_is_hamming(
    open: Seq<Position>,
    start: Position,
    p: Position,
    d: int,
    w: Seq<Position>,
)
    requires
        has_walk(open, start, p, d),
        forall|v: Seq<Position>| #[trigger] is_walk(open, v, start, p) ==> v.len() - 1 >= d,
        is_walk(open, w, start, p),
        w.len() - 1 == hamming(start, p),
    ensures
        d == hamming(start, p),
{
    let v = choose|v: Seq<Position>| is_walk(open, v, start, p) && v.len() == d + 1;
    lemma_hamming_admissible(open, v, start, p);
}

/// Tile `p` lies in the fully open `n` by `n` grid in the plane `z == 0`.
pub open spec fn in_grid(n: int, p: Position) -> bool {
    0 <= p.x < n && 0 <= p.y < n && p.z == 0
}

/// A walk from the corner to `(i, j, 0)`: along `x`, then along `y`.
pub open spec fn staircase(i: nat, j: nat) -> Seq<Position>
    decreases i + j,
{
    if i == 0 && j == 0 {
        seq![Position { x: 0, y: 0, z: 0 }]
    } else if j == 0 {
        staircase((i - 1) as nat, 0).push(Position { x: i as i64, y: 0, z: 0 })
    } else {
        staircase(i, (j - 1) as nat).push(Position { x: i as i64, y: j as i64, z: 0 })
    }
}

proof fn lemma_staircase(open: Seq<Position>, n: int, i: nat, j: nat)
    requires
        0 <= i < n,
        0 <= j < n,
        n <= i64::MAX,
        forall|p: Position| #[trigger] open.contains(p) <==> in_grid(n, p),
    ensures
        is_walk(
            open,
            staircase(i, j),
            Position { x: 0, y: 0, z: 0 },
            Position { x: i as i64, y: j as i64, z: 0 },
        ),
        staircase(i, j).len() == i + j + 1,
    decreases i + j,
{
    let origin = Position { x: 0, y: 0, z: 0 };
    let t = Position { x: i as i64, y: j as i64, z: 0 };
    if i == 0 && j == 0 {
    } else {
        let (pi, pj) = if j == 0 {
            ((i - 1) as nat, 0nat)
        } else {
            (i, (j - 1) as nat)
        };
        lemma_staircase(open, n, pi, pj);
        let v = staircase(pi, pj);
        let w = staircase(i, j);
        assert(w == v.push(t));
        assert(in_grid(n, t));
        assert forall|m: int| 1 <= m < w.len() implies open.contains(#[trigger] w[m]) && adjacent_to(
            w[m - 1],
            w[m],
        ) by {
            if m < v.len() {
                assert(w[m] == v[m] && w[m - 1] == v[m - 1]);
            } else {
                assert(w[m - 1] == v.last());
            }
        }
    }
}

/// On a fully open `n` by `n` grid searched from the corner, tile `(i, j, 0)` is handed out at
/// distance `i + j`, and every tile is reachable, so a finished search hands out all of them.
pub proof fn lemma_open_grid(open: Seq<Position>, n: int, p: Position, d: int)
    requires
        1 <= n <= i64::MAX,
        forall|q: Position| #[trigger] open.contains(q) <==> in_grid(n, q),
        in_grid(n, p),
        has_walk(open, Position { x: 0, y: 0, z: 0 }, p, d),
        forall|v: Seq<Position>| #[trigger]
            is_walk(open, v, Position { x: 0, y: 0, z: 0 }, p) ==> v.len() - 1 >= d,
    ensures
        d == p.x + p.y,
        forall|q: Position| #[trigger]
            open.contains(q) ==> reachable(open, Position { x: 0, y: 0, z: 0 }, q),
{
    let origin = Position { x: 0, y: 0, z: 0 };
    lemma_staircase(open, n, p.x as nat, p.y as nat);
    lemma_distance_is_hamming(open, origin, p, d, staircase(p.x as nat, p.y as nat));
    assert forall|q: Position| #[trigger] open.contains(q) implies reachable(open, origin, q) by {
        lemma_staircase(open, n, q.x as nat, q.y as nat);
        assert(has_walk(open, origin, q, q.x + q.y));
    }
}

proof fn lemma_remove_unique(s: Seq<Position>, i: int)
    requires
        0 <= i < s.len(),
        s.no_duplicates(),
    ensures
        s.remove(i).no_duplicates(),
        forall|p: Position| #[trigger] s.remove(i).contains(p) <==> s.contains(p) && p != s[i],
{
    let r = s.remove(i);
    assert forall|a: int, b: int| 0 <= a < r.len() && 0 <= b < r.len() && a != b implies r[a]
        != r[b] by {
        let a1 = if a < i {
            a
        } else {
            a + 1
        };
        let b1 = if b < i {
            b
        } else {
            b + 1
        };
        assert(r[a] == s[a1] && r[b] == s[b1]);
    }
    assert forall|p: Position| r.contains(p) implies s.contains(p) && p != s[i] by {
        let a = choose|a: int| 0 <= a < r.len() && r[a] == p;
        let a1 = if a < i {
            a
        } else {
            a + 1
        };
        assert(s[a1] == p);
    }
    assert forall|p: Position| s.contains(p) && p != s[i] implies r.contains(p) by {
        let a = choose|a: int| 0 <= a < s.len() && s[a] == p;
        if a < i {
            assert(r[a] == p);
        } else {
            assert(r[a - 1] == p);
        }
    }
}

proof fn lemma_push_unique(s: Seq<Position>, p: Position)
    ensures
        forall|q: Position| #[trigger] s.push(p).contains(q) <==> s.contains(q) || q == p,
        s.no_duplicates() && !s.contains(p) ==> s.push(p).no_duplicates(),
{
    let r = s.push(p);
    assert(r[s.len() as int] == p);
    assert forall|q: Position| r.contains(q) implies s.contains(q) || q == p by {
        let a = choose|a: int| 0 <= a < r.len() && r[a] == q;
        if a < s.len() {
            assert(s[a] == q);
        }
    }
    assert forall|q: Position| s.contains(q) implies r.contains(q) by {
        let a = choose|a: int| 0 <= a < s.len() && s[a] == q;
        assert(r[a] == q);
    }
    if s.no_duplicates() && !s.contains(p) {
        assert forall|a: int, b: int| 0 <= a < r.len() && 0 <= b < r.len() && a != b implies r[a]
            != r[b] by {
            if a < s.len() && b < s.len() {
                assert(r[a] == s[a] && r[b] == s[b]);
            } else if a < s.len() {
                assert(s.contains(r[a]));
            } else if b < s.len() {
                assert(s.contains(r[b]));
            }
        }
    }
}

} // verus!
