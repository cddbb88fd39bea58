use std::collections::HashSet;

use unlight::board::CollisionBehavior;
use unlight::collision::{collision_at, rebuild_collision_data, CollisionField};
use unlight::position::BoardPosition;
use unlight::prebaked::{
    find_wave_edge_tiles, has_active_light_nearby, identify_active_light_sources, is_light_active,
    source_is_active, LightSourceState, SourceField, WavePropagation,
};

fn at(x: i64, y: i64) -> BoardPosition {
    BoardPosition::new(x, y, 0)
}

#[test]
fn only_enabled_sources_with_an_id_are_active() {
    let sources = vec![
        LightSourceState { source_id: Some(1), emission_enabled: true },
        LightSourceState { source_id: Some(2), emission_enabled: false },
        LightSourceState { source_id: None, emission_enabled: true },
        LightSourceState { source_id: Some(3), emission_enabled: true },
    ];
    let active = identify_active_light_sources(&sources);
    let expected: HashSet<u32> = [1, 3].into_iter().collect();
    assert_eq!(active, expected);
    assert!(source_is_active(Some(3), &active));
    assert!(!source_is_active(Some(2), &active));
    assert!(!source_is_active(None, &active));
}

#[test]
fn light_is_active_by_first_behaviour_at_the_cell() {
    let behaviors = vec![(at(1, 1), true), (at(2, 2), false), (at(1, 1), false)];
    assert!(is_light_active(&at(1, 1), &behaviors));
    assert!(!is_light_active(&at(2, 2), &behaviors));
    assert!(!is_light_active(&at(3, 3), &behaviors));
}

#[test]
fn active_light_nearby_looks_one_cell_around() {
    let mut sources: SourceField = SourceField::new(0, 0, 0, 4, 4, 0);
    sources.insert(3, 3, 0, 7);
    sources.insert(0, 0, 0, 8);
    let active: HashSet<u32> = [7].into_iter().collect();
    assert!(has_active_light_nearby(&sources, &active, 2, 2, 0));
    assert!(has_active_light_nearby(&sources, &active, 4, 4, 0));
    assert!(!has_active_light_nearby(&sources, &active, 1, 1, 0));
    assert!(!has_active_light_nearby(&sources, &active, 0, 0, 0));
}

#[test]
fn wave_edges_of_active_sources_are_selected_in_order() {
    let edges = vec![Some(1), None, Some(2), Some(1), Some(5)];
    let active: HashSet<u32> = [1, 5].into_iter().collect();
    assert_eq!(find_wave_edge_tiles(&edges, &active), vec![0, 3, 4]);
    assert_eq!(find_wave_edge_tiles(&vec![], &active), Vec::<usize>::new());
}

fn corridor() -> CollisionField {
    // A 5×1 corridor: floor, floor, closed door, wall, floor.
    let mut ents = Vec::new();
    for x in 0..5 {
        let (walkable, coll, see, dynamic) = match x {
            2 => (false, true, false, true),
            3 => (false, true, false, false),
            _ => (true, false, false, false),
        };
        ents.push(CollisionBehavior {
            pos: at(x, 0),
            walkable,
            player_collision: coll,
            ghost_collision: coll,
            see_through: see,
            is_dynamic: dynamic,
        });
    }
    let mut cf = rebuild_collision_data((5, 1, 1), &ents);
    // Floor cells are transparent to light.
    for x in [0i64, 1, 4] {
        let mut c = collision_at(&cf, &at(x, 0)).unwrap();
        c.see_through = true;
        cf.set(&at(x, 0), c);
    }
    cf
}

#[test]
fn spread_passes_doors_but_not_walls_and_reaches_each_cell_once() {
    let cf = corridor();
    let mut sources: SourceField = SourceField::new(0, 0, 0, 4, 0, 0);
    sources.insert(0, 0, 0, 9);
    let mut w = WavePropagation::new((5, 1, 1));
    assert_eq!(w.push(&at(0, 0), 9), 0);
    let (slot, from, src, out) = w.next(&sources, &cf).unwrap();
    assert_eq!((slot, from, src), (0, at(0, 0), 9));
    assert_eq!(out, vec![(at(1, 0), true)]);
    assert_eq!(w.push(&at(1, 0), 9), 1);
    let (_, _, _, out) = w.next(&sources, &cf).unwrap();
    // The door lets light in as a dynamic occluder; the source's own cell is skipped.
    assert_eq!(out, vec![(at(2, 0), false)]);
    w.push(&at(2, 0), 9);
    let (_, _, _, out) = w.next(&sources, &cf).unwrap();
    // The wall is reached but takes no light; the cell behind the door was handed out already.
    assert!(out.is_empty());
    assert!(w.next(&sources, &cf).is_none());
    // Pushing an already-lit cell again hands out nothing new.
    w.push(&at(1, 0), 9);
    let (_, _, _, out) = w.next(&sources, &cf).unwrap();
    assert!(out.is_empty());
}

#[test]
fn each_source_keeps_its_own_visited_cells() {
    let cf = corridor();
    let sources: SourceField = SourceField::new(0, 0, 0, 4, 0, 0);
    let mut w = WavePropagation::new((5, 1, 1));
    w.push(&at(0, 0), 1);
    w.push(&at(0, 0), 2);
    let (_, _, _, a) = w.next(&sources, &cf).unwrap();
    let (_, _, _, b) = w.next(&sources, &cf).unwrap();
    assert_eq!(a, vec![(at(1, 0), true)]);
    assert_eq!(b, vec![(at(1, 0), true)]);
}
