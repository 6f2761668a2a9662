use itertools::Itertools;
use positioning::pathfinding::{
    all_pairs_shortest_paths, find_shortest_path, HammingDistance, Heuristic, WithInfinity,
};
use positioning::Position;
use std::collections::{BTreeSet, VecDeque};

fn to_vec(set: &BTreeSet<Position>) -> Vec<Position> {
    set.iter().copied().collect()
}

#[test]
fn with_infinity_test() {
    let x = WithInfinity::Normal(1i32);
    let z = WithInfinity::Normal(0i32);
    let y = WithInfinity::Infinity;
    assert!(y > x);
    assert!(z < x);
    assert!(x + z < y);
    for i in 0..100000 {
        assert!(y > WithInfinity::Normal(i));
    }
}

#[test]
fn infinity_dominates_and_absorbs() {
    let inf: WithInfinity<u64> = WithInfinity::Infinity;
    assert!(inf > WithInfinity::Normal(u64::MAX));
    assert!(WithInfinity::Normal(u64::MAX).is_less_than(inf));
    assert!(!inf.is_less_than(WithInfinity::Normal(0)));
    assert_eq!(WithInfinity::Normal(7u64) + inf, inf);
    assert_eq!(inf + WithInfinity::Normal(7u64), inf);
    assert_eq!(WithInfinity::Normal(3u64) + WithInfinity::Normal(4u64), WithInfinity::Normal(7));
    assert_eq!(WithInfinity::<u64>::default(), inf);
}

#[test]
fn checked_plus_values() {
    let a = WithInfinity::Normal(2u64);
    assert_eq!(a.checked_plus(WithInfinity::Normal(3)), Some(WithInfinity::Normal(5)));
    assert_eq!(a.checked_plus(WithInfinity::Infinity), Some(WithInfinity::Infinity));
    assert_eq!(WithInfinity::Normal(u64::MAX).checked_plus(a), None);
    assert!(WithInfinity::Normal(1u64).is_less_than(WithInfinity::Normal(2)));
    assert!(!WithInfinity::Normal(2u64).is_less_than(WithInfinity::Normal(2)));
}

#[test]
fn all_pairs_test() {
    let open_positions: BTreeSet<Position> = vec![
        Position::new(0, 0, 0),
        Position::new(0, 0, 1),
        Position::new(0, 0, 2),
    ]
    .into_iter()
    .collect();

    let all_pairs = all_pairs_shortest_paths(&to_vec(&open_positions));

    assert_eq!(
        all_pairs.distance_between(Position::new(0, 0, 0), Position::new(0, 0, 0)),
        Some(WithInfinity::Normal(0))
    );

    assert_eq!(
        all_pairs.distance_between(Position::new(0, 0, 0), Position::new(0, 0, 1)),
        Some(WithInfinity::Normal(1)),
    );

    assert_eq!(
        all_pairs.distance_between(Position::new(0, 0, 0), Position::new(0, 0, 2)),
        Some(WithInfinity::Normal(2)),
    );

    assert_eq!(
        all_pairs.distance_between(Position::new(0, 0, 1), Position::new(0, 0, 0)),
        Some(WithInfinity::Normal(1)),
    );

    assert_eq!(
        all_pairs.distance_between(Position::new(0, 0, 2), Position::new(0, 0, 0)),
        Some(WithInfinity::Normal(2)),
    );

    assert_eq!(
        all_pairs.distance_between(Position::new(0, 0, 2), Position::new(0, 0, 1)),
        Some(WithInfinity::Normal(1)),
    );
}

#[test]
fn all_pairs_leaves_out_unknown_tiles() {
    let open_positions = vec![Position::new(0, 0, 0), Position::new(0, 0, 1), Position::new(0, 0, 2)];
    let all_pairs = all_pairs_shortest_paths(&open_positions);
    assert_eq!(all_pairs.distance_between(Position::new(0, 0, 0), Position::new(5, 5, 5)), None);
    assert_eq!(all_pairs.distance_between(Position::new(1, 0, 0), Position::new(0, 0, 0)), None);
    assert_eq!(
        all_pairs.heuristic_distance(Position::new(1, 0, 0), Position::new(0, 0, 0)),
        WithInfinity::Infinity
    );
}

#[test]
fn all_pairs_disconnected_is_infinite() {
    let open_positions = vec![Position::new(0, 0, 0), Position::new(0, 0, 2)];
    let all_pairs = all_pairs_shortest_paths(&open_positions);
    assert_eq!(
        all_pairs.distance_between(Position::new(0, 0, 0), Position::new(0, 0, 2)),
        Some(WithInfinity::Infinity)
    );
    assert_eq!(
        all_pairs.distance_between(Position::new(0, 0, 2), Position::new(0, 0, 2)),
        Some(WithInfinity::Normal(0))
    );
}

#[test]
fn all_pairs_is_deterministic() {
    let open_positions: Vec<Position> = (0..4i64)
        .cartesian_product(0..4i64)
        .map(|(i, j)| Position::new(i, j, 0))
        .filter(|p| !(p.x == 1 && p.y > 0))
        .collect();
    let first = all_pairs_shortest_paths(&open_positions);
    let second = all_pairs_shortest_paths(&open_positions);
    for p in open_positions.iter().copied() {
        for q in open_positions.iter().copied() {
            assert_eq!(first.distance_between(p, q), second.distance_between(p, q));
        }
    }
    assert_eq!(
        first.distance_between(Position::new(0, 3, 0), Position::new(2, 3, 0)),
        Some(WithInfinity::Normal(8))
    );
}

#[test]
fn hamming_heuristic_values() {
    let h = HammingDistance;
    assert_eq!(
        h.heuristic_distance(Position::new(0, 0, 0), Position::new(1, -2, 3)),
        WithInfinity::Normal(6)
    );
    assert_eq!(
        h.heuristic_distance(Position::new(i64::MIN, i64::MIN, 0), Position::new(i64::MAX, i64::MAX, 0)),
        WithInfinity::Normal(u64::MAX)
    );
}

#[test]
fn shortest_path_test() {
    let static_open_positions: BTreeSet<Position> = vec![
        Position::new(0, 0, 0),
        Position::new(0, 0, 1),
        Position::new(0, 0, 2),
    ]
    .into_iter()
    .collect();

    let dynamic_open_positions: BTreeSet<Position> =
        vec![Position::new(0, 0, 0), Position::new(0, 0, 2)]
            .into_iter()
            .collect();
    let dynamic = to_vec(&dynamic_open_positions);

    let all_pairs = all_pairs_shortest_paths(&to_vec(&static_open_positions));

    assert_eq!(
        all_pairs.find_shortest_path(&dynamic, Position::new(0, 0, 0), Position::new(0, 0, 2)),
        None
    );

    assert_eq!(
        all_pairs.find_shortest_path(&dynamic, Position::new(0, 0, 0), Position::new(0, 0, 1),),
        None
    );

    assert_eq!(
        all_pairs.find_shortest_path(&dynamic, Position::new(0, 0, 0), Position::new(0, 0, 0),),
        Some(VecDeque::new())
    );

    const N: i64 = 3;

    let static_open_positions: BTreeSet<Position> = (0..N)
        .cartesian_product(0..N)
        .map(|(i, j)| Position::new(i, j, 0))
        .collect();

    let all_pairs = all_pairs_shortest_paths(&to_vec(&static_open_positions));

    let mut dynamic_open_positions: BTreeSet<Position> = static_open_positions.clone();
    for y in 1..N {
        dynamic_open_positions.remove(&Position::new(N / 2, y, 0));
    }
    let dynamic = to_vec(&dynamic_open_positions);

    for position in dynamic_open_positions.iter().copied() {
        for other in dynamic_open_positions.iter().copied() {
            if !(other.x == N / 2) || other.y == 0 {
                continue;
            }
            if position == Position::new(N / 2, 0, 0)
                || (position.x < N / 2 && other.x < N / 2)
                || (position.x > N / 2 && other.x > N / 2)
            {
                assert_eq!(
                    all_pairs
                        .find_shortest_path(&dynamic, position, other)
                        .map_or_else(
                            || WithInfinity::Infinity,
                            |e| WithInfinity::Normal(e.len() as u64)
                        ),
                    all_pairs.heuristic_distance(position, other),
                );
            } else {
                assert_eq!(
                    all_pairs
                        .find_shortest_path(&dynamic, position, other)
                        .map_or_else(
                            || WithInfinity::Infinity,
                            |e| WithInfinity::Normal(e.len() as u64)
                        ),
                    WithInfinity::Normal(
                        position.x.abs_diff(other.x)
                            + (N - position.y) as u64
                            + (N - other.y) as u64
                    ),
                );
            }
        }
    }
}

fn is_walk(open: &[Position], start: Position, path: &VecDeque<Position>, end: Position) -> bool {
    let mut prev = start;
    for p in path {
        if !open.contains(p) || !prev.is_adjacent_to(*p) {
            return false;
        }
        prev = *p;
    }
    prev == end
}

#[test]
fn both_heuristics_find_the_detour() {
    // the wall of the heuristic comparison: a row and a column of closed tiles
    let n = 8i64;
    let mut statically_open = Vec::new();
    for x in 0..n {
        for y in 0..n {
            if (y == 2 && x > 2 && x < n - 2) || (x == 2 && y > 2) {
                continue;
            }
            statically_open.push(Position::new(x, y, 0));
        }
    }
    let all_pairs = all_pairs_shortest_paths(&statically_open);
    let dynamically_open: Vec<Position> = statically_open
        .iter()
        .copied()
        .filter(|p| *p != Position::new(n - 1, n / 2, 0))
        .collect();
    let start = Position::new(n - 1, n - 1, 0);
    let end = Position::new(0, n - 1, 0);

    let mut bfs = positioning::bfs::Bfs::new(&dynamically_open, start);
    let mut expected = None;
    while let Some((p, d)) = bfs.next() {
        if p == end {
            expected = Some(d);
        }
    }
    let expected = expected.unwrap();
    assert_eq!(expected, 19);

    let by_table = all_pairs.find_shortest_path(&dynamically_open, start, end).unwrap();
    let by_hamming = HammingDistance.find_shortest_path(&dynamically_open, start, end).unwrap();
    let generic = find_shortest_path(&HammingDistance, &dynamically_open, start, end).unwrap();
    assert_eq!(by_table.len() as u64, expected);
    assert_eq!(by_hamming.len() as u64, expected);
    assert_eq!(generic, by_hamming);
    assert!(is_walk(&dynamically_open, start, &by_table, end));
    assert!(is_walk(&dynamically_open, start, &by_hamming, end));
    for path in [&by_table, &by_hamming] {
        assert!(!path.contains(&start));
        let distinct: BTreeSet<Position> = path.iter().copied().collect();
        assert_eq!(distinct.len(), path.len());
    }
}

#[test]
fn path_is_deterministic() {
    let open: Vec<Position> = (0..5i64)
        .cartesian_product(0..5i64)
        .map(|(i, j)| Position::new(i, j, 0))
        .collect();
    let all_pairs = all_pairs_shortest_paths(&open);
    let start = Position::new(0, 0, 0);
    let end = Position::new(4, 4, 0);
    let first = all_pairs.find_shortest_path(&open, start, end);
    let second = all_pairs.find_shortest_path(&open, start, end);
    assert_eq!(first, second);
    assert_eq!(first.unwrap().len(), 8);
}

#[test]
fn path_to_closed_end_is_none() {
    let open = vec![Position::new(0, 0, 0), Position::new(0, 0, 1)];
    assert_eq!(
        HammingDistance.find_shortest_path(&open, Position::new(0, 0, 0), Position::new(0, 0, 2)),
        None
    );
    assert_eq!(
        HammingDistance.find_shortest_path(&open, Position::new(0, 0, 0), Position::new(0, 0, 1)),
        Some(VecDeque::from(vec![Position::new(0, 0, 1)]))
    );
}

#[test]
fn table_is_symmetric_exact_and_obeys_the_triangle_inequality() {
    let open: Vec<Position> = (0..4i64)
        .cartesian_product(0..4i64)
        .map(|(i, j)| Position::new(i, j, 0))
        .filter(|p| !(p.x == 1 && p.y > 0))
        .collect();
    let table = all_pairs_shortest_paths(&open);
    for &a in &open {
        assert_eq!(table.distance_between(a, a), Some(WithInfinity::Normal(0)));
        for &b in &open {
            let ab = table.distance_between(a, b).unwrap();
            assert_eq!(Some(ab), table.distance_between(b, a));
            if a != b {
                assert_ne!(ab, WithInfinity::Normal(0));
            }
            assert!(ab >= WithInfinity::Normal(a.hamming_distance(b)));
            for &c in &open {
                let bc = table.distance_between(b, c).unwrap();
                let ac = table.distance_between(a, c).unwrap();
                assert!(ac <= ab + bc);
            }
        }
    }
}

#[test]
fn closing_tiles_never_shortens_a_distance() {
    let larger: Vec<Position> = (0..4i64)
        .cartesian_product(0..4i64)
        .map(|(i, j)| Position::new(i, j, 0))
        .collect();
    let smaller: Vec<Position> = larger.iter().copied().filter(|p| !(p.x == 1 && p.y > 0)).collect();
    let t_large = all_pairs_shortest_paths(&larger);
    let t_small = all_pairs_shortest_paths(&smaller);
    for &a in &smaller {
        for &b in &smaller {
            assert!(t_large.distance_between(a, b).unwrap() <= t_small.distance_between(a, b).unwrap());
        }
    }
    assert_eq!(
        t_large.distance_between(Position::new(0, 3, 0), Position::new(2, 3, 0)),
        Some(WithInfinity::Normal(2))
    );
    assert_eq!(
        t_small.distance_between(Position::new(0, 3, 0), Position::new(2, 3, 0)),
        Some(WithInfinity::Normal(8))
    );
}
