use unlight::board::CollisionBehavior;
use unlight::collision::{rebuild_collision_data, CollisionField};
use unlight::position::BoardPosition;
use unlight::visibility::VisibilityFlood;

fn cell(x: i64, y: i64, walkable: bool) -> CollisionBehavior {
    CollisionBehavior {
        pos: BoardPosition::new(x, y, 0),
        walkable,
        player_collision: !walkable,
        ghost_collision: !walkable,
        see_through: false,
        is_dynamic: false,
    }
}

/// A square room of `n`×`n` floor cells with walls on the listed cells.
fn room(n: i64, walls: &[(i64, i64)]) -> CollisionField {
    let mut ents = Vec::new();
    for x in 0..n {
        for y in 0..n {
            let is_wall = walls.contains(&(x, y));
            ents.push(cell(x, y, !is_wall));
        }
    }
    rebuild_collision_data((n as usize, n as usize, 1), &ents)
}

/// Runs the flood to the end, giving a value to every neighbour offered.
fn flood_all(cf: &CollisionField, start: BoardPosition) -> (VisibilityFlood, Vec<BoardPosition>) {
    let mut f = VisibilityFlood::new(cf, &start);
    let mut expanded = Vec::new();
    while let Some((pos, _from, nbors)) = f.next(cf) {
        expanded.push(pos);
        for n in nbors.iter() {
            f.reach(cf, n);
        }
    }
    (f, expanded)
}

#[test]
fn enclosed_viewer_sees_nothing_past_the_ring() {
    let ring = [(1, 1), (2, 1), (3, 1), (1, 2), (3, 2), (1, 3), (2, 3), (3, 3)];
    let cf = room(5, &ring);
    let start = BoardPosition::new(2, 2, 0);
    let (f, expanded) = flood_all(&cf, start);
    assert_eq!(expanded, vec![start]);
    assert!(f.is_reached(&cf, &start));
    for &(x, y) in ring.iter() {
        assert!(f.is_reached(&cf, &BoardPosition::new(x, y, 0)));
    }
    for x in 0..5 {
        for y in 0..5 {
            if x == 0 || y == 0 || x == 4 || y == 4 {
                assert!(!f.is_reached(&cf, &BoardPosition::new(x, y, 0)));
            }
        }
    }
}

#[test]
fn open_room_floods_every_cell_once() {
    let cf = room(5, &[]);
    let (f, expanded) = flood_all(&cf, BoardPosition::new(2, 2, 0));
    assert_eq!(expanded.len(), 25);
    for x in 0..5 {
        for y in 0..5 {
            assert!(f.is_reached(&cf, &BoardPosition::new(x, y, 0)));
        }
    }
    assert!(!f.is_reached(&cf, &BoardPosition::new(5, 2, 0)));
}

#[test]
fn reach_accepts_only_new_known_neighbours_of_the_expanding_cell() {
    let cf = room(4, &[]);
    let start = BoardPosition::new(0, 0, 0);
    let mut f = VisibilityFlood::new(&cf, &start);
    assert!(!f.reach(&cf, &BoardPosition::new(1, 0, 0)));
    let (pos, from, nbors) = f.next(&cf).unwrap();
    assert_eq!((pos, from), (start, start));
    assert_eq!(nbors.len(), 3);
    assert!(f.reach(&cf, &BoardPosition::new(1, 1, 0)));
    assert!(!f.reach(&cf, &BoardPosition::new(1, 1, 0)));
    assert!(!f.reach(&cf, &BoardPosition::new(2, 2, 0)));
    assert!(!f.reach(&cf, &BoardPosition::new(-1, 0, 0)));
    assert!(!f.reach(&cf, &start));
    let (pos, from, _) = f.next(&cf).unwrap();
    assert_eq!((pos, from), (BoardPosition::new(1, 1, 0), start));
}

#[test]
fn viewer_outside_the_known_world_expands_nothing() {
    let cf = room(3, &[]);
    let start = BoardPosition::new(10, 10, 0);
    let (f, expanded) = flood_all(&cf, start);
    assert!(expanded.is_empty());
    assert!(f.is_reached(&cf, &start));
    assert!(!f.is_reached(&cf, &BoardPosition::new(2, 2, 0)));
}

#[test]
fn walls_take_a_value_but_do_not_pass_it_on() {
    let walls = [(2, 0), (2, 1), (2, 2), (2, 3)];
    let cf = room(4, &walls);
    let (f, expanded) = flood_all(&cf, BoardPosition::new(0, 0, 0));
    assert_eq!(expanded.len(), 8);
    assert!(f.is_reached(&cf, &BoardPosition::new(2, 3, 0)));
    assert!(!f.is_reached(&cf, &BoardPosition::new(3, 0, 0)));
}
