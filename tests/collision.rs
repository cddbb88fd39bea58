use unlight::board::{CollisionBehavior, CollisionFieldData};
use unlight::collision::{collision_at, collision_dims, rebuild_collision_data, CollisionField};
use unlight::position::BoardPosition;

fn floor(x: i64, y: i64) -> CollisionBehavior {
    CollisionBehavior {
        pos: BoardPosition::new(x, y, 0),
        walkable: true,
        player_collision: false,
        ghost_collision: false,
        see_through: false,
        is_dynamic: false,
    }
}

fn wall(x: i64, y: i64, see_through: bool, is_dynamic: bool) -> CollisionBehavior {
    CollisionBehavior {
        pos: BoardPosition::new(x, y, 0),
        walkable: false,
        player_collision: true,
        ghost_collision: true,
        see_through,
        is_dynamic,
    }
}

#[test]
fn obstacles_override_floor_whatever_the_order() {
    let ents = vec![wall(1, 1, false, false), floor(1, 1), floor(0, 0), wall(2, 0, true, true)];
    let cf = rebuild_collision_data((3, 3, 1), &ents);
    let c11 = collision_at(&cf, &BoardPosition::new(1, 1, 0)).unwrap();
    assert!(!c11.player_free && !c11.ghost_free && !c11.see_through);
    assert!(!c11.lets_sight_through());
    let c00 = collision_at(&cf, &BoardPosition::new(0, 0, 0)).unwrap();
    assert_eq!(
        c00,
        CollisionFieldData { player_free: true, ghost_free: true, see_through: false, is_dynamic: false }
    );
    assert!(c00.lets_sight_through());
    assert!(!c00.lets_light_in());
    let c20 = collision_at(&cf, &BoardPosition::new(2, 0, 0)).unwrap();
    assert!(c20.see_through && c20.is_dynamic && c20.lets_light_in() && c20.lets_sight_through());
    let empty = collision_at(&cf, &BoardPosition::new(2, 2, 0)).unwrap();
    assert_eq!(empty, CollisionFieldData::default());
    assert!(collision_at(&cf, &BoardPosition::new(3, 0, 0)).is_none());
    assert!(collision_at(&cf, &BoardPosition::new(-1, 0, 0)).is_none());
    assert_eq!(collision_dims(&cf), (3, 3, 1));
}

#[test]
fn set_records_a_cell_inside_the_field_only() {
    let mut cf: CollisionField = rebuild_collision_data((2, 2, 1), &vec![]);
    let glass = CollisionFieldData { player_free: false, ghost_free: false, see_through: true, is_dynamic: false };
    cf.set(&BoardPosition::new(1, 0, 0), glass);
    cf.set(&BoardPosition::new(5, 0, 0), glass);
    assert_eq!(collision_at(&cf, &BoardPosition::new(1, 0, 0)), Some(glass));
    assert_eq!(collision_at(&cf, &BoardPosition::new(0, 0, 0)), Some(CollisionFieldData::default()));
    assert_eq!(collision_at(&cf, &BoardPosition::new(5, 0, 0)), None);
}

#[test]
fn last_obstacle_on_a_cell_wins_and_outside_entities_are_ignored() {
    let ghost_door = CollisionBehavior { ghost_collision: false, ..wall(0, 0, false, true) };
    let ents = vec![wall(0, 0, true, false), ghost_door, wall(9, 9, true, false)];
    let cf = rebuild_collision_data((2, 2, 1), &ents);
    let c = collision_at(&cf, &BoardPosition::new(0, 0, 0)).unwrap();
    assert!(c.ghost_free && !c.see_through && c.is_dynamic && !c.player_free);
    assert!(collision_at(&cf, &BoardPosition::new(9, 9, 0)).is_none());
}
