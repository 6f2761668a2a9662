use positioning::bfs::Bfs;
use positioning::Position;
use std::collections::BTreeSet;

fn grid(n: i64) -> Vec<Position> {
    let mut open_positions = BTreeSet::new();
    for i in 0..n {
        for j in 0..n {
            open_positions.insert(Position::new(i, j, 0));
        }
    }
    open_positions.into_iter().collect()
}

#[test]
fn test_bfs() {
    let open_positions = grid(10);

    let origin = Position::new(0, 0, 0);

    let mut bfs = Bfs::new(&open_positions, origin);

    while let Some((position, distance)) = bfs.next() {
        println!("position = {:?}, distance = {}", position, distance);
        assert_eq!(distance, origin.hamming_distance(position));
    }
}

#[test]
fn bfs_visits_every_tile_once_in_order() {
    let open_positions = grid(6);
    let origin = Position::new(0, 0, 0);
    let mut bfs = Bfs::new(&open_positions, origin);
    let mut seen = BTreeSet::new();
    let mut last: Option<(Position, u64)> = None;
    while let Some((position, distance)) = bfs.next() {
        assert!(seen.insert(position));
        assert_eq!(distance, (position.x + position.y) as u64);
        if let Some((p, d)) = last {
            assert!(distance >= d);
            if distance == d {
                assert!(p < position);
            }
        }
        last = Some((position, distance));
    }
    assert_eq!(seen.len(), 36);
    assert!(bfs.next().is_none());
}

#[test]
fn bfs_from_closed_start_is_empty() {
    let open_positions = grid(3);
    let mut bfs = Bfs::new(&open_positions, Position::new(5, 5, 5));
    assert!(bfs.next().is_none());
    assert!(bfs.next().is_none());
}

#[test]
fn bfs_from_closed_start_next_to_open_tiles_is_empty() {
    let open_positions = grid(3);
    let mut bfs = Bfs::new(&open_positions, Position::new(-1, 0, 0));
    assert!(bfs.next().is_none());
}

#[test]
fn bfs_stays_finished() {
    let open_positions = grid(2);
    let mut bfs = Bfs::new(&open_positions, Position::new(0, 0, 0));
    assert_eq!(bfs.next(), Some((Position::new(0, 0, 0), 0)));
    let mut count = 1;
    while bfs.next().is_some() {
        count += 1;
    }
    assert_eq!(count, 4);
    assert!(bfs.next().is_none());
    assert!(bfs.next().is_none());
}

#[test]
fn bfs_goes_around_a_wall() {
    // a 3 x 3 grid whose middle column is closed but for its top tile
    let open_positions: Vec<Position> = grid(3)
        .into_iter()
        .filter(|p| !(p.x == 1 && p.y < 2))
        .collect();
    let mut bfs = Bfs::new(&open_positions, Position::new(0, 0, 0));
    let mut found = Vec::new();
    while let Some(pair) = bfs.next() {
        found.push(pair);
    }
    assert_eq!(
        found,
        vec![
            (Position::new(0, 0, 0), 0),
            (Position::new(0, 1, 0), 1),
            (Position::new(0, 2, 0), 2),
            (Position::new(1, 2, 0), 3),
            (Position::new(2, 2, 0), 4),
            (Position::new(2, 1, 0), 5),
            (Position::new(2, 0, 0), 6),
        ]
    );
}
