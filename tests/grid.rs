use unlight::board::{is_in_bounds, BoardDataToRebuild};
use unlight::position::BoardPosition;
use unlight::sector::LightFieldSector;
use unlight::app_run;

#[test]
fn steps_move_one_cell() {
    let p = BoardPosition::new(3, -2, 1);
    assert_eq!(p.left(), BoardPosition::new(2, -2, 1));
    assert_eq!(p.right(), BoardPosition::new(4, -2, 1));
    assert_eq!(p.top(), BoardPosition::new(3, -3, 1));
    assert_eq!(p.bottom(), BoardPosition::new(3, -1, 1));
}

#[test]
fn xy_neighbors_walks_window_row_by_row() {
    let p = BoardPosition::new(10, 20, 5);
    let n = p.xy_neighbors(1);
    assert_eq!(n.len(), 9);
    assert_eq!(n[0], BoardPosition::new(9, 19, 5));
    assert_eq!(n[1], BoardPosition::new(9, 20, 5));
    assert_eq!(n[4], p);
    assert_eq!(n[8], BoardPosition::new(11, 21, 5));
    assert_eq!(p.xy_neighbors(0), vec![p]);
    assert_eq!(p.xy_neighbors(3).len(), 49);
}

#[test]
fn distance_sq_counts_all_axes() {
    let a = BoardPosition::new(0, 0, 0);
    let b = BoardPosition::new(3, -4, 12);
    assert_eq!(a.distance_sq(&b), 169);
    assert_eq!(b.distance_sq(&a), 169);
    assert_eq!(a.distance_sq(&a), 0);
}

#[test]
fn sector_stores_inside_its_box_only() {
    let mut s: LightFieldSector<u32> = LightFieldSector::new(-1, 0, 0, 1, 2, 0);
    assert_eq!(s.dims(), (3, 3, 1));
    assert!(s.is_none(0, 1, 0));
    s.insert(0, 1, 0, 7);
    s.insert(5, 5, 0, 9);
    assert_eq!(s.get(0, 1, 0), Some(&7));
    assert!(s.is_some(0, 1, 0));
    assert_eq!(s.get(5, 5, 0), None);
    assert_eq!(s.get_pos(&BoardPosition::new(-1, 2, 0)), None);
    s.insert(-1, 2, 0, 3);
    assert_eq!(s.get_pos(&BoardPosition::new(-1, 2, 0)), Some(&3));
    assert_eq!(s.get(0, 1, 0), Some(&7));
}

#[test]
fn sector_with_inverted_axis_is_empty() {
    let mut s: LightFieldSector<u32> = LightFieldSector::new(0, 0, 0, -1, 4, 4);
    assert_eq!(s.dims(), (0, 5, 5));
    s.insert(0, 0, 0, 1);
    assert!(s.is_none(0, 0, 0));
}

#[test]
fn filled_sector_holds_value_everywhere_in_box() {
    let s = LightFieldSector::filled((2, 2, 0), (2, 2, 1), 4u8);
    assert_eq!(s.corner(), (2, 2, 0));
    assert_eq!(s.get(3, 3, 0), Some(&4));
    assert_eq!(s.get(1, 3, 0), None);
}

#[test]
fn bounds_are_half_open_from_zero() {
    assert!(is_in_bounds((0, 0, 0), (1, 1, 1)));
    assert!(!is_in_bounds((1, 0, 0), (1, 1, 1)));
    assert!(!is_in_bounds((-1, 0, 0), (4, 4, 4)));
    assert!(is_in_bounds((3, 3, 3), (4, 4, 4)));
    assert!(!is_in_bounds((0, 0, 4), (4, 4, 4)));
}

#[test]
fn requests_of_a_tick_merge_into_one() {
    let reqs = vec![
        BoardDataToRebuild { lighting: false, collision: true },
        BoardDataToRebuild { lighting: false, collision: false },
        BoardDataToRebuild { lighting: true, collision: true },
    ];
    let m = BoardDataToRebuild::merge_all(&reqs);
    assert!(m.lighting && m.collision);
    let none = BoardDataToRebuild::merge_all(&vec![]);
    assert!(!none.lighting && !none.collision);
    let mut a = BoardDataToRebuild { lighting: false, collision: false };
    a.merge(&BoardDataToRebuild { lighting: true, collision: false });
    assert_eq!(a, BoardDataToRebuild { lighting: true, collision: false });
}

#[test]
fn a_run_starts_with_a_full_rebuild() {
    let r = app_run();
    assert!(r.lighting && r.collision);
}
