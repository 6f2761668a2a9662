//! # Walks
//!
//! Walks over a set of open tiles: the mathematical model that the searches are stated over.
use crate::position::{adjacent_to, hamming, Position};
use vstd::prelude::*;

verus! {

/// `w` is a walk from `from` to `to`: every tile after the first is open and adjacent to the one
/// before it.
pub open spec fn is_walk(open: Seq<Position>, w: Seq<Position>, from: Position, to: Position) -> bool {
    &&& w.len() >= 1
    &&& w[0] == from
    &&& w.last() == to
    &&& forall|m: int| 1 <= m < w.len() ==> open.contains(#[trigger] w[m]) && adjacent_to(w[m - 1], w[m])
}

/// A walk of exactly `d` steps leads from `from` to `to`.
pub open spec fn has_walk(open: Seq<Position>, from: Position, to: Position, d: int) -> bool {
    exists|w: Seq<Position>| is_walk(open, w, from, to) && w.len() == d + 1
}

/// The index of the first occurrence of `p` in `open`.
pub(crate) fn index_of(open: &Vec<Position>, p: Position) -> (r: Option<usize>)
    ensures
        r is None ==> open@.index_of_first(p) is None,
        r matches Some(i) ==> open@.index_of_first(p) == Some(i as int) && i < open@.len()
            && open@[i as int] == p,
{
    proof {
        open@.index_of_first_ensures(p);
    }
    let mut i: usize = 0;
    while i < open.len()
        invariant
            i <= open@.len(),
            forall|k: int| 0 <= k < i ==> open@[k] != p,
        decreases open.len() - i,
    {
        if open[i] == p {
            proof {
                open@.index_of_first_ensures(p);
                assert(open@.contains(p));
                let idx = open@.index_of_first(p).unwrap();
                assert(idx == i) by {
                    if idx < i {
                        assert(open@[idx] != p);
                    }
                    if idx > i {
                        assert(open@[i as int] != p);
                    }
                }
            }
            return Some(i);
        }
        i += 1;
    }
    None
}

/// Some walk leads from `from` to `to`.
pub open spec fn reachable(open: Seq<Position>, from: Position, to: Position) -> bool {
    exists|d: int| has_walk(open, from, to, d)
}

/// Some walk of at most `k` steps leads from `from` to `to`.
pub open spec fn reachable_within(open: Seq<Position>, from: Position, to: Position, k: int) -> bool {
    exists|w: Seq<Position>| is_walk(open, w, from, to) && w.len() <= k + 1
}

pub(crate) proof fn lemma_walk_concat(open: Seq<Position>, a: Position, c: Position, b: Position, d1: int, d2: int)
    requires
        has_walk(open, a, c, d1),
        has_walk(open, c, b, d2),
    ensures
        has_walk(open, a, b, d1 + d2),
{
    let w1 = choose|w: Seq<Position>| is_walk(open, w, a, c) && w.len() == d1 + 1;
    let w2 = choose|w: Seq<Position>| is_walk(open, w, c, b) && w.len() == d2 + 1;
    let w = w1 + w2.drop_first();
    assert forall|m: int| 1 <= m < w.len() implies open.contains(#[trigger] w[m]) && adjacent_to(
        w[m - 1],
        w[m],
    ) by {
        if m < w1.len() {
            assert(w[m] == w1[m]);
            assert(w[m - 1] == w1[m - 1]);
        } else if m == w1.len() {
            assert(w[m] == w2[1]);
            assert(w[m - 1] == w1[m - 1]);
        } else {
            assert(w[m] == w2[m - w1.len() + 1]);
            assert(w[m - 1] == w2[m - w1.len()]);
        }
    }
    if w2.len() == 1 {
        assert(w.last() == w1.last());
    } else {
        assert(w.last() == w2.last());
    }
    assert(is_walk(open, w, a, b));
}

/// A walk of no steps stays where it starts.
pub(crate) proof fn lemma_walk_empty(open: Seq<Position>, a: Position, b: Position)
    requires
        has_walk(open, a, b, 0),
    ensures
        a == b,
{
    let w = choose|w: Seq<Position>| is_walk(open, w, a, b) && w.len() == 1;
}

/// The Hamming distance never exceeds the length of a walk: each step changes one coordinate by
/// one.
pub proof fn lemma_hamming_admissible(open: Seq<Position>, w: Seq<Position>, a: Position, b: Position)
    requires
        is_walk(open, w, a, b),
    ensures
        hamming(a, b) <= w.len() - 1,
    decreases w.len(),
{
    if w.len() > 1 {
        let v = w.drop_last();
        let c = v.last();
        assert forall|m: int| 1 <= m < v.len() implies open.contains(#[trigger] v[m]) && adjacent_to(
            v[m - 1],
            v[m],
        ) by {
            assert(v[m] == w[m] && v[m - 1] == w[m - 1]);
        }
        lemma_hamming_admissible(open, v, a, c);
        assert(adjacent_to(w[w.len() - 2], w[w.len() - 1]));
    }
}

/// A sequence without repeats, all of whose tiles are in `open`, is no longer than `open`.
pub proof fn lemma_unique_within(y: Seq<Position>, open: Seq<Position>)
    requires
        y.no_duplicates(),
        forall|p: Position| #[trigger] y.contains(p) ==> open.contains(p),
    ensures
        y.len() <= open.len(),
{
    y.unique_seq_to_set();
    open.lemma_cardinality_of_set();
    assert(y.to_set().subset_of(open.to_set()));
    vstd::set_lib::lemma_len_subset(y.to_set(), open.to_set());
}

/// Any walk shortens to one of at most `open.len()` steps: a longer one enters some tile twice,
/// and the loop between the two visits can be cut out.
pub proof fn lemma_shortcut(open: Seq<Position>, w: Seq<Position>, a: Position, b: Position)
    requires
        is_walk(open, w, a, b),
    ensures
        reachable_within(open, a, b, open.len() as int),
    decreases w.len(),
{
    if w.len() <= open.len() + 1 {
        assert(is_walk(open, w, a, b) && w.len() <= open.len() + 1);
    } else {
        let tail = w.drop_first();
        assert forall|p: Position| #[trigger] tail.contains(p) implies open.contains(p) by {
            let i = choose|i: int| 0 <= i < tail.len() && tail[i] == p;
            assert(tail[i] == w[i + 1]);
        }
        if tail.no_duplicates() {
            lemma_unique_within(tail, open);
        }
        let (i, j) = choose|i: int, j: int|
            0 <= i < tail.len() && 0 <= j < tail.len() && i != j && tail[i] == tail[j];
        let lo = if i < j { i + 1 } else { j + 1 };
        let hi = if i < j { j + 1 } else { i + 1 };
        assert(w[lo] == w[hi]);
        let v = w.subrange(0, lo + 1) + w.subrange(hi + 1, w.len() as int);
        assert forall|m: int| 1 <= m < v.len() implies open.contains(#[trigger] v[m]) && adjacent_to(
            v[m - 1],
            v[m],
        ) by {
            if m <= lo {
                assert(v[m] == w[m] && v[m - 1] == w[m - 1]);
            } else if m == lo + 1 {
                assert(v[m] == w[hi + 1] && v[m - 1] == w[lo]);
            } else {
                assert(v[m] == w[m - lo + hi] && v[m - 1] == w[m - 1 - lo + hi]);
            }
        }
        if hi + 1 < w.len() {
            assert(v.last() == w.last());
        } else {
            assert(v.last() == w[lo]);
        }
        assert(v[0] == w[0]);
        lemma_shortcut(open, v, a, b);
    }
}

/// A tile is reachable exactly when it is reachable within `open.len()` steps.
pub proof fn lemma_reachable_within_size(open: Seq<Position>, a: Position, b: Position)
    ensures
        reachable(open, a, b) <==> reachable_within(open, a, b, open.len() as int),
{
    if reachable(open, a, b) {
        let d = choose|d: int| has_walk(open, a, b, d);
        let w = choose|w: Seq<Position>| is_walk(open, w, a, b) && w.len() == d + 1;
        lemma_shortcut(open, w, a, b);
    }
    if reachable_within(open, a, b, open.len() as int) {
        let w = choose|w: Seq<Position>| is_walk(open, w, a, b) && w.len() <= open.len() + 1;
        assert(has_walk(open, a, b, w.len() - 1));
    }
}

/// A walk read backwards is a walk, when the tile it starts from is open too.
pub proof fn lemma_walk_reverse(open: Seq<Position>, w: Seq<Position>, a: Position, b: Position)
    requires
        is_walk(open, w, a, b),
        open.contains(a),
    ensures
        is_walk(open, w.reverse(), b, a),
        w.reverse().len() == w.len(),
{
    let r = w.reverse();
    let l = w.len() as int;
    assert forall|m: int| 1 <= m < r.len() implies open.contains(#[trigger] r[m]) && adjacent_to(
        r[m - 1],
        r[m],
    ) by {
        assert(r[m] == w[l - 1 - m] && r[m - 1] == w[l - m]);
        if l - 1 - m == 0 {
            assert(w[0] == a);
        }
        assert(adjacent_to(w[l - m - 1], w[l - m]));
        crate::position::lemma_adjacency_symmetric(w[l - m - 1], w[l - m]);
    }
    assert(r[0] == w[l - 1]);
    assert(r.last() == w[0]);
}

} // verus!
