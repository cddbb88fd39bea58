use vstd::prelude::*;

use crate::position::{has_room, window_cell, window_side, BoardPosition};

verus! {

/// Whether `pos` lies inside a map of `map_size` cells whose first cell is `(0, 0, 0)`.
pub open spec fn in_bounds_spec(pos: (i64, i64, i64), map_size: (usize, usize, usize)) -> bool {
    &&& 0 <= pos.0 < map_size.0
    &&& 0 <= pos.1 < map_size.1
    &&& 0 <= pos.2 < map_size.2
}

pub fn is_in_bounds(pos: (i64, i64, i64), map_size: (usize, usize, usize)) -> (r: bool)
    ensures
        r == in_bounds_spec(pos, map_size),
{
    pos.0 >= 0 && pos.1 >= 0 && pos.2 >= 0 && (pos.0 as u64) < (map_size.0 as u64) && (pos.1 as u64)
        < (map_size.1 as u64) && (pos.2 as u64) < (map_size.2 as u64)
}

pub open spec fn in_map_spec(p: BoardPosition, map_size: (usize, usize, usize)) -> bool {
    in_bounds_spec((p.x, p.y, p.z), map_size)
}

/// Keeps the cells that lie in a map of `map_size` cells.
pub open spec fn in_map_filter(map_size: (usize, usize, usize)) -> spec_fn(BoardPosition) -> bool {
    |q: BoardPosition| in_map_spec(q, map_size)
}

/// The window of radius `dist` around `p`, in the order of `xy_neighbors`.
pub open spec fn window_seq(p: BoardPosition, dist: nat) -> Seq<BoardPosition> {
    Seq::new(window_side(dist) * window_side(dist), |i: int| window_cell(p, dist, i))
}

/// The cells of the window of radius `dist` around `p` that lie in the map, in the order
/// of `xy_neighbors`: the neighbourhood that a propagation pass walks.
pub fn xy_neighbors_in_map(p: &BoardPosition, dist: u32, map_size: (usize, usize, usize)) -> (r: Vec<
    BoardPosition,
>)
    requires
        has_room(*p, dist as int),
        window_side(dist as nat) * window_side(dist as nat) <= usize::MAX,
    ensures
        r@ == window_seq(*p, dist as nat).filter(in_map_filter(map_size)),
{
    let window = p.xy_neighbors(dist);
    let ghost win = window_seq(*p, dist as nat);
    let ghost pred = in_map_filter(map_size);
    assert(window@ =~= win);
    let mut r: Vec<BoardPosition> = Vec::new();
    let mut i: usize = 0;
    assert(win.take(0).filter(pred) =~= Seq::<BoardPosition>::empty()) by {
        reveal(Seq::filter);
    }
    while i < window.len()
        invariant
            i <= window@.len(),
            window@ == win,
            pred == in_map_filter(map_size),
            r@ == win.take(i as int).filter(pred),
        decreases window@.len() - i,
    {
        let q = window[i];
        assert(win.take(i + 1).drop_last() =~= win.take(i as int));
        assert(win.take(i + 1).last() == q);
        let inside = is_in_bounds((q.x, q.y, q.z), map_size);
        assert(pred(q) == in_map_spec(q, map_size));
        assert(in_map_spec(q, map_size) == inside);
        assert(win.take(i + 1).filter(pred) == if inside {
            win.take(i as int).filter(pred).push(q)
        } else {
            win.take(i as int).filter(pred)
        }) by {
            reveal(Seq::filter);
            assert(win.take(i + 1).len() > 0);
        }
        if inside {
            r.push(q);
        }
        i = i + 1;
    }
    assert(win.take(window@.len() as int) =~= win);
    r
}

/// A request to rebuild the collision field, the light field, or both.
#[derive(Clone, Copy, Debug, Default, PartialEq, Eq, Structural)]
pub struct BoardDataToRebuild {
    pub lighting: bool,
    pub collision: bool,
}

impl BoardDataToRebuild {
    /// Folds `other` into this pending request: a field is rebuilt once if any request asks.
    pub fn merge(&mut self, other: &BoardDataToRebuild)
        ensures
            final(self).lighting == (old(self).lighting || other.lighting),
            final(self).collision == (old(self).collision || other.collision),
    {
        self.lighting = self.lighting || other.lighting;
        self.collision = self.collision || other.collision;
    }

    /// All the requests of one tick, merged into the one rebuild that runs.
    pub fn merge_all(requests: &Vec<BoardDataToRebuild>) -> (r: BoardDataToRebuild)
        ensures
            r.lighting == exists|i: int| 0 <= i < requests@.len() && #[trigger] requests@[i].lighting,
            r.collision == exists|i: int|
                0 <= i < requests@.len() && #[trigger] requests@[i].collision,
    {
        let mut acc = BoardDataToRebuild { lighting: false, collision: false };
        let mut i: usize = 0;
        while i < requests.len()
            invariant
                i <= requests@.len(),
                acc.lighting == exists|j: int| 0 <= j < i && #[trigger] requests@[j].lighting,
                acc.collision == exists|j: int| 0 <= j < i && #[trigger] requests@[j].collision,
            decreases requests@.len() - i,
        {
            acc.merge(&requests[i]);
            i = i + 1;
        }
        acc
    }
}

/// What the collision field records of one cell.
#[derive(Clone, Copy, Debug, Default, PartialEq, Eq, Structural)]
pub struct CollisionFieldData {
    pub player_free: bool,
    pub ghost_free: bool,
    pub see_through: bool,
    pub is_dynamic: bool,
}

impl CollisionFieldData {
    /// A sight line may continue through the cell: it can be walked or seen through.
    pub fn lets_sight_through(&self) -> (r: bool)
        ensures
            r == (self.player_free || self.see_through),
    {
        self.player_free || self.see_through
    }

    /// Light of a dynamic source may still reach the cell: it is transparent, or an
    /// occluder such as a door whose state may change.
    pub fn lets_light_in(&self) -> (r: bool)
        ensures
            r == (self.see_through || self.is_dynamic),
    {
        self.see_through || self.is_dynamic
    }
}

/// How one placed entity takes part in collision.
#[derive(Clone, Copy, Debug, Default, PartialEq, Eq, Structural)]
pub struct CollisionBehavior {
    pub pos: BoardPosition,
    pub walkable: bool,
    pub player_collision: bool,
    pub ghost_collision: bool,
    pub see_through: bool,
    pub is_dynamic: bool,
}

/// The cell of a walkable entity.
pub open spec fn floor_cell() -> CollisionFieldData {
    CollisionFieldData { player_free: true, ghost_free: true, see_through: false, is_dynamic: false }
}

/// The cell of an entity that stops the player.
pub open spec fn obstacle_cell(b: CollisionBehavior) -> CollisionFieldData {
    CollisionFieldData {
        player_free: false,
        ghost_free: !b.ghost_collision,
        see_through: b.see_through,
        is_dynamic: b.is_dynamic,
    }
}

pub open spec fn at(b: CollisionBehavior, x: int, y: int, z: int) -> bool {
    b.pos.x == x && b.pos.y == y && b.pos.z == z
}

/// The cell `(x, y, z)` after walkable entities and then obstacles were laid down:
/// the last obstacle there wins, else floor if anything walkable is there, else empty.
pub open spec fn collision_cell_spec(ents: Seq<CollisionBehavior>, x: int, y: int, z: int) -> CollisionFieldData
    decreases ents.len(),
{
    if ents.len() == 0 {
        CollisionFieldData { player_free: false, ghost_free: false, see_through: false, is_dynamic: false }
    } else if ents.last().player_collision && at(ents.last(), x, y, z) {
        obstacle_cell(ents.last())
    } else {
        let rest = collision_cell_spec(ents.drop_last(), x, y, z);
        if ents.last().walkable && at(ents.last(), x, y, z) && !has_obstacle(ents.drop_last(), x, y, z) {
            floor_cell()
        } else {
            rest
        }
    }
}

pub open spec fn has_obstacle(ents: Seq<CollisionBehavior>, x: int, y: int, z: int) -> bool {
    exists|i: int| 0 <= i < ents.len() && #[trigger] ents[i].player_collision && at(ents[i], x, y, z)
}

} // verus!
