use positioning::Position;

#[test]
fn position_adjacency_test() {
    let a = Position { x: 1, y: 1, z: 1 };
    let b = Position { x: 2, ..a };
    assert!(a.is_adjacent_to(b));
    let c = Position { y: 2, ..a };
    assert!(a.is_adjacent_to(c));
    let d = Position { z: 2, ..a };
    assert!(a.is_adjacent_to(d));
    let e = Position { y: 2, ..b };
    assert!(!a.is_adjacent_to(e));
    let f = Position { z: 2, ..b };
    assert!(!a.is_adjacent_to(f));
    let g = Position { z: 10, ..e };
    assert!(!a.is_adjacent_to(g));
}

#[test]
fn diagonal_is_not_adjacent() {
    assert!(!Position::new(0, 0, 0).is_adjacent_to(Position::new(1, 1, 0)));
}

#[test]
fn adjacency_is_irreflexive_and_symmetric() {
    let tiles = [
        Position::new(0, 0, 0),
        Position::new(0, 0, 1),
        Position::new(1, 0, 0),
        Position::new(-1, 2, 3),
        Position::new(i64::MAX, 0, 0),
        Position::new(i64::MIN, 0, 0),
    ];
    for p in tiles {
        assert!(!p.is_adjacent_to(p));
        for q in tiles {
            assert_eq!(p.is_adjacent_to(q), q.is_adjacent_to(p));
            assert_eq!(p.is_adjacent_to(q), p.hamming_distance(q) == 1);
        }
    }
}

#[test]
fn wrapped_extremes_are_not_adjacent() {
    assert!(!Position::new(i64::MAX, 0, 0).is_adjacent_to(Position::new(i64::MIN, 0, 0)));
}

#[test]
fn hamming_distance_values() {
    assert_eq!(Position::new(0, 0, 0).hamming_distance(Position::new(3, -4, 5)), 12);
    assert_eq!(Position::new(-2, 7, 1).hamming_distance(Position::new(-2, 7, 1)), 0);
    assert_eq!(
        Position::new(i64::MIN, 0, 0).hamming_distance(Position::new(i64::MAX, 0, 0)),
        u64::MAX
    );
    // saturates where the sum no longer fits in u64
    assert_eq!(
        Position::new(i64::MIN, i64::MIN, 0).hamming_distance(Position::new(i64::MAX, i64::MAX, 0)),
        u64::MAX
    );
}

#[test]
fn adjacent_yields_six_distinct_neighbours() {
    let p = Position::new(4, -3, 7);
    let adj = p.adjacent();
    assert_eq!(adj.len(), 6);
    for (i, a) in adj.iter().enumerate() {
        assert!(p.is_adjacent_to(*a));
        for b in adj.iter().skip(i + 1) {
            assert_ne!(a, b);
        }
    }
    assert_eq!(
        adj,
        vec![
            Position::new(3, -3, 7),
            Position::new(4, -4, 7),
            Position::new(4, -3, 6),
            Position::new(4, -3, 8),
            Position::new(4, -2, 7),
            Position::new(5, -3, 7),
        ]
    );
}

#[test]
fn adjacent_drops_wrapped_offsets() {
    let corner = Position::new(i64::MIN, i64::MAX, i64::MIN);
    let adj = corner.adjacent();
    assert_eq!(adj.len(), 3);
    for a in adj {
        assert!(corner.is_adjacent_to(a));
    }
}

#[test]
fn precedes_is_lexicographic() {
    assert!(Position::new(0, 5, 5).precedes(Position::new(1, 0, 0)));
    assert!(Position::new(1, 0, 5).precedes(Position::new(1, 1, 0)));
    assert!(Position::new(1, 1, 0).precedes(Position::new(1, 1, 1)));
    assert!(!Position::new(1, 1, 1).precedes(Position::new(1, 1, 1)));
    assert_eq!(
        Position::new(2, 0, 0).precedes(Position::new(1, 9, 9)),
        Position::new(2, 0, 0) < Position::new(1, 9, 9)
    );
}

#[test]
fn arithmetic_wraps() {
    let a = Position::new(1, 2, 3);
    let b = Position::new(10, -20, 30);
    assert_eq!(a + b, Position::new(11, -18, 33));
    assert_eq!(b - a, Position::new(9, -22, 27));
    assert_eq!(a * 3, Position::new(3, 6, 9));
    assert_eq!(
        Position::new(i64::MAX, 0, 0) + Position::new(1, 0, 0),
        Position::new(i64::MIN, 0, 0)
    );
    assert_eq!(
        Position::new(i64::MIN, 0, 0) - Position::new(1, 0, 0),
        Position::new(i64::MAX, 0, 0)
    );
    assert_eq!(Position::new(i64::MAX, 1, -1) * 2, Position::new(-2, 2, -2));
}
