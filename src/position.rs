//! # Position
//!
//! A tile of a 3D grid with `i64` coordinates. Arithmetic wraps at the bounds of `i64`.
use vstd::prelude::*;
use vstd::wrapping::i64_specs;

verus! {

/// A tile of the grid. The derived order is lexicographic on `(x, y, z)`.
#[derive(Debug, Clone, Copy, PartialEq, Eq, Structural, PartialOrd, Ord, Hash)]
pub struct Position {
    pub x: i64,
    pub y: i64,
    pub z: i64,
}

/// Distance between two integers.
pub open spec fn diff(a: i64, b: i64) -> int {
    if a >= b {
        a - b
    } else {
        b - a
    }
}

/// The L1 (Hamming) distance between two tiles, over the integers.
pub open spec fn hamming(p: Position, q: Position) -> int {
    diff(p.x, q.x) + diff(p.y, q.y) + diff(p.z, q.z)
}

/// The Hamming distance, capped at `u64::MAX`.
pub open spec fn capped_hamming(p: Position, q: Position) -> u64 {
    if hamming(p, q) <= u64::MAX {
        hamming(p, q) as u64
    } else {
        u64::MAX
    }
}

/// Face adjacency: exactly one coordinate differs, by exactly one.
pub open spec fn adjacent_to(p: Position, q: Position) -> bool {
    hamming(p, q) == 1
}

/// Lexicographic strict order on `(x, y, z)`, the order of the derived `Ord`.
pub open spec fn lex_lt(p: Position, q: Position) -> bool {
    p.x < q.x || (p.x == q.x && p.y < q.y) || (p.x == q.x && p.y == q.y && p.z < q.z)
}

/// Appends `q` to `s` when the step to it did not wrap around.
pub open spec fn push_if(s: Seq<Position>, ok: bool, q: Position) -> Seq<Position> {
    if ok {
        s.push(q)
    } else {
        s
    }
}

/// The tiles adjacent to `p`, ordered by their offset in `{-1, 0, 1}^3`; offsets that would
/// wrap around the bounds of `i64` are left out.
pub open spec fn neighbours(p: Position) -> Seq<Position> {
    let s0 = Seq::<Position>::empty();
    let s1 = push_if(s0, p.x > i64::MIN, Position { x: (p.x - 1) as i64, ..p });
    let s2 = push_if(s1, p.y > i64::MIN, Position { y: (p.y - 1) as i64, ..p });
    let s3 = push_if(s2, p.z > i64::MIN, Position { z: (p.z - 1) as i64, ..p });
    let s4 = push_if(s3, p.z < i64::MAX, Position { z: (p.z + 1) as i64, ..p });
    let s5 = push_if(s4, p.y < i64::MAX, Position { y: (p.y + 1) as i64, ..p });
    push_if(s5, p.x < i64::MAX, Position { x: (p.x + 1) as i64, ..p })
}

fn abs_diff(a: i64, b: i64) -> (r: u64)
    ensures
        r == diff(a, b),
{
    if a >= b {
        (a as i128 - b as i128) as u64
    } else {
        (b as i128 - a as i128) as u64
    }
}

impl Position {
    /// Creates a new [`Position`].
    pub fn new(x: i64, y: i64, z: i64) -> (r: Self)
        ensures
            r == (Position { x, y, z }),
    {
        Position { x, y, z }
    }

    /// Whether `other` is face adjacent to `self`; diagonal neighbours are not adjacent.
    pub fn is_adjacent_to(self, other: Position) -> (r: bool)
        ensures
            r == adjacent_to(self, other),
    {
        let dx = abs_diff(self.x, other.x);
        let dy = abs_diff(self.y, other.y);
        let dz = abs_diff(self.z, other.z);
        dx as u128 + dy as u128 + dz as u128 == 1
    }

    /// The tiles adjacent to `self`: at most six, fewer only where a step would wrap around.
    pub fn adjacent(self) -> (r: Vec<Position>)
        ensures
            r@ == neighbours(self),
    {
        let mut r: Vec<Position> = Vec::new();
        if self.x > i64::MIN {
            r.push(Position { x: self.x - 1, ..self });
        }
        if self.y > i64::MIN {
            r.push(Position { y: self.y - 1, ..self });
        }
        if self.z > i64::MIN {
            r.push(Position { z: self.z - 1, ..self });
        }
        if self.z < i64::MAX {
            r.push(Position { z: self.z + 1, ..self });
        }
        if self.y < i64::MAX {
            r.push(Position { y: self.y + 1, ..self });
        }
        if self.x < i64::MAX {
            r.push(Position { x: self.x + 1, ..self });
        }
        r
    }

    /// The Hamming (L1) distance between two tiles, saturating at `u64::MAX`, which only tiles
    /// near opposite bounds of `i64` reach.
    pub fn hamming_distance(self, other: Position) -> (r: u64)
        ensures
            r == capped_hamming(self, other),
    {
        let d = abs_diff(self.x, other.x) as u128 + abs_diff(self.y, other.y) as u128 + abs_diff(
            self.z,
            other.z,
        ) as u128;
        if d <= u64::MAX as u128 {
            d as u64
        } else {
            u64::MAX
        }
    }

    /// Whether `self` comes strictly before `other` in the lexicographic order on `(x, y, z)`.
    pub fn precedes(self, other: Position) -> (r: bool)
        ensures
            r == lex_lt(self, other),
    {
        self.x < other.x || (self.x == other.x && self.y < other.y) || (self.x == other.x
            && self.y == other.y && self.z < other.z)
    }
}

proof fn lemma_push_if(s: Seq<Position>, ok: bool, q: Position)
    ensures
        forall|r: Position| s.contains(r) ==> push_if(s, ok, q).contains(r),
        ok ==> push_if(s, ok, q).contains(q),
        forall|r: Position|
            push_if(s, ok, q).contains(r) ==> s.contains(r) || (ok && r == q),
{
    if ok {
        assert(s.push(q)[s.len() as int] == q);
        assert forall|r: Position| s.contains(r) implies s.push(q).contains(r) by {
            let i = choose|i: int| 0 <= i < s.len() && s[i] == r;
            assert(s.push(q)[i] == r);
        }
        assert forall|r: Position| s.push(q).contains(r) implies s.contains(r) || r == q by {
            let i = choose|i: int| 0 <= i < s.len() + 1 && s.push(q)[i] == r;
            if i < s.len() {
                assert(s[i] == r);
            }
        }
    }
}

impl std::ops::Add<Position> for Position {
    type Output = Position;

    /// Coordinate-wise sum, wrapping at the bounds of `i64`.
    fn add(self, rhs: Position) -> (r: Position) {
        Position {
            x: self.x.wrapping_add(rhs.x),
            y: self.y.wrapping_add(rhs.y),
            z: self.z.wrapping_add(rhs.z),
        }
    }
}

impl vstd::std_specs::ops::AddSpecImpl<Position> for Position {
    open spec fn obeys_add_spec() -> bool {
        true
    }

    open spec fn add_req(self, rhs: Position) -> bool {
        true
    }

    open spec fn add_spec(self, rhs: Position) -> Position {
        Position {
            x: i64_specs::wrapping_add(self.x, rhs.x),
            y: i64_specs::wrapping_add(self.y, rhs.y),
            z: i64_specs::wrapping_add(self.z, rhs.z),
        }
    }
}

impl std::ops::Sub<Position> for Position {
    type Output = Position;

    /// Coordinate-wise difference, wrapping at the bounds of `i64`.
    fn sub(self, rhs: Position) -> (r: Position) {
        Position {
            x: self.x.wrapping_sub(rhs.x),
            y: self.y.wrapping_sub(rhs.y),
            z: self.z.wrapping_sub(rhs.z),
        }
    }
}

impl vstd::std_specs::ops::SubSpecImpl<Position> for Position {
    open spec fn obeys_sub_spec() -> bool {
        true
    }

    open spec fn sub_req(self, rhs: Position) -> bool {
        true
    }

    open spec fn sub_spec(self, rhs: Position) -> Position {
        Position {
            x: i64_specs::wrapping_sub(self.x, rhs.x),
            y: i64_specs::wrapping_sub(self.y, rhs.y),
            z: i64_specs::wrapping_sub(self.z, rhs.z),
        }
    }
}

impl std::ops::Mul<i64> for Position {
    type Output = Position;

    /// Scales every coordinate, wrapping at the bounds of `i64`.
    fn mul(self, rhs: i64) -> (r: Position) {
        Position {
            x: self.x.wrapping_mul(rhs),
            y: self.y.wrapping_mul(rhs),
            z: self.z.wrapping_mul(rhs),
        }
    }
}

impl vstd::std_specs::ops::MulSpecImpl<i64> for Position {
    open spec fn obeys_mul_spec() -> bool {
        true
    }

    open spec fn mul_req(self, rhs: i64) -> bool {
        true
    }

    open spec fn mul_spec(self, rhs: i64) -> Position {
        Position {
            x: i64_specs::wrapping_mul(self.x, rhs),
            y: i64_specs::wrapping_mul(self.y, rhs),
            z: i64_specs::wrapping_mul(self.z, rhs),
        }
    }
}

/// Adjacency is irreflexive and symmetric, and holds exactly when the Hamming distance is one.
pub proof fn lemma_adjacency_symmetric(p: Position, q: Position)
    ensures
        !adjacent_to(p, p),
        adjacent_to(p, q) == adjacent_to(q, p),
        adjacent_to(p, q) <==> hamming(p, q) == 1,
{
}

/// The enumeration of adjacent tiles holds exactly the tiles adjacent to `p`, each once; away
/// from the bounds of `i64` it holds six of them.
pub proof fn lemma_neighbours(p: Position)
    ensures
        forall|q: Position| neighbours(p).contains(q) <==> adjacent_to(p, q),
        neighbours(p).no_duplicates(),
        (i64::MIN < p.x < i64::MAX && i64::MIN < p.y < i64::MAX && i64::MIN < p.z < i64::MAX)
            ==> neighbours(p).len() == 6,
{
    let c1 = Position { x: (p.x - 1) as i64, ..p };
    let c2 = Position { y: (p.y - 1) as i64, ..p };
    let c3 = Position { z: (p.z - 1) as i64, ..p };
    let c4 = Position { z: (p.z + 1) as i64, ..p };
    let c5 = Position { y: (p.y + 1) as i64, ..p };
    let c6 = Position { x: (p.x + 1) as i64, ..p };
    let s0 = Seq::<Position>::empty();
    let s1 = push_if(s0, p.x > i64::MIN, c1);
    let s2 = push_if(s1, p.y > i64::MIN, c2);
    let s3 = push_if(s2, p.z > i64::MIN, c3);
    let s4 = push_if(s3, p.z < i64::MAX, c4);
    let s5 = push_if(s4, p.y < i64::MAX, c5);
    let s6 = push_if(s5, p.x < i64::MAX, c6);
    lemma_push_if(s0, p.x > i64::MIN, c1);
    lemma_push_if(s1, p.y > i64::MIN, c2);
    lemma_push_if(s2, p.z > i64::MIN, c3);
    lemma_push_if(s3, p.z < i64::MAX, c4);
    lemma_push_if(s4, p.y < i64::MAX, c5);
    lemma_push_if(s5, p.x < i64::MAX, c6);
    assert(s6 == neighbours(p));
    assert forall|q: Position| adjacent_to(p, q) implies s6.contains(q) by {
        if q.x == p.x - 1 {
            assert(q == c1);
        } else if q.x == p.x + 1 {
            assert(q == c6);
        } else if q.y == p.y - 1 {
            assert(q == c2);
        } else if q.y == p.y + 1 {
            assert(q == c5);
        } else if q.z == p.z - 1 {
            assert(q == c3);
        } else {
            assert(q == c4);
        }
    }
    assert(s6.no_duplicates()) by {
        assert forall|i: int, j: int| 0 <= i < s6.len() && 0 <= j < s6.len() && i != j implies s6[i]
            != s6[j] by {
            assert(s6.contains(s6[i]));
            assert(s6.contains(s6[j]));
        }
    }
}

} // verus!
