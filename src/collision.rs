use vstd::prelude::*;

use ndarray::Array3;

use crate::board::{at, collision_cell_spec, floor_cell, has_obstacle, CollisionBehavior, CollisionFieldData};
use crate::position::BoardPosition;

verus! {

/// The collision field of a map: one record per cell, indexed `(x, y, z)` from zero.
/// It holds an ndarray array, which Verus sees only through the names and wrappers below.
#[verifier::external_body]
pub struct CollisionField {
    cells: Array3<CollisionFieldData>,
}

/// What the collision field holds at each index of its shape.
pub uninterp spec fn collision_cells(a: CollisionField) -> Map<(usize, usize, usize), CollisionFieldData>;

/// The shape of the collision field.
pub uninterp spec fn collision_shape(a: CollisionField) -> (usize, usize, usize);

pub open spec fn in_shape(idx: (usize, usize, usize), shape: (usize, usize, usize)) -> bool {
    idx.0 < shape.0 && idx.1 < shape.1 && idx.2 < shape.2
}

/// Product of the axis lengths, an empty axis counted as one.
pub open spec fn nonzero_product(shape: (usize, usize, usize)) -> int {
    (if shape.0 == 0 { 1int } else { shape.0 as int }) * (if shape.1 == 0 { 1int } else { shape.1 as int }) * (
    if shape.2 == 0 { 1int } else { shape.2 as int })
}

/// Relies on ndarray's `ArrayBase::from_elem`: an array of `shape` whose every element is
/// a copy of `elem`; it panics where the product of the non-zero axis lengths overflows `isize`.
#[verifier::external_body]
fn collision_from_elem(shape: (usize, usize, usize), elem: CollisionFieldData) -> (r: CollisionField)
    requires
        nonzero_product(shape) <= isize::MAX,
    ensures
        collision_shape(r) == shape,
        forall|idx: (usize, usize, usize)| in_shape(idx, shape) ==> #[trigger] collision_cells(r)[idx] == elem,
{
    CollisionField { cells: Array3::from_elem(shape, elem) }
}

/// Relies on ndarray's `ArrayBase::get`: the element at an index inside the shape, and
/// `None` outside it.
#[verifier::external_body]
fn collision_get(a: &CollisionField, idx: (usize, usize, usize)) -> (r: Option<CollisionFieldData>)
    ensures
        r == if in_shape(idx, collision_shape(*a)) {
            Some(collision_cells(*a)[idx])
        } else {
            None
        },
{
    a.cells.get(idx).copied()
}

/// Relies on ndarray's `IndexMut` for `ArrayBase`: writes the element at an index inside
/// the shape; it panics outside it.
#[verifier::external_body]
fn collision_set(a: &mut CollisionField, idx: (usize, usize, usize), v: CollisionFieldData)
    requires
        in_shape(idx, collision_shape(*old(a))),
    ensures
        collision_shape(*final(a)) == collision_shape(*old(a)),
        forall|q: (usize, usize, usize)|
            in_shape(q, collision_shape(*old(a))) ==> #[trigger] collision_cells(*final(a))[q] == if q == idx {
                v
            } else {
                collision_cells(*old(a))[q]
            },
{
    a.cells[idx] = v;
}

/// Relies on ndarray's `ArrayBase::dim`: the shape, as a tuple of axis lengths.
#[verifier::external_body]
fn collision_dim(a: &CollisionField) -> (r: (usize, usize, usize))
    ensures
        r == collision_shape(*a),
{
    a.cells.dim()
}

/// The coordinate `v` as an index of the field.
pub open spec fn index_of(v: i64) -> Option<usize> {
    if 0 <= v <= usize::MAX {
        Some(v as usize)
    } else {
        None
    }
}

fn to_index(v: i64) -> (r: Option<usize>)
    ensures
        r == index_of(v),
{
    if v < 0 || (v as u64) > (usize::MAX as u64) {
        None
    } else {
        Some(v as usize)
    }
}

/// The index of the cell `p` in the field, where its coordinates have one.
pub open spec fn cell_index(p: BoardPosition) -> Option<(usize, usize, usize)> {
    match (index_of(p.x), index_of(p.y), index_of(p.z)) {
        (Some(i), Some(j), Some(k)) => Some((i, j, k)),
        _ => None,
    }
}

/// The record of the cell `p`, or `None` outside the field.
pub open spec fn collision_at_spec(cf: &CollisionField, p: BoardPosition) -> Option<CollisionFieldData> {
    match cell_index(p) {
        Some(idx) => if in_shape(idx, collision_shape(*cf)) {
            Some(collision_cells(*cf)[idx])
        } else {
            None
        },
        None => None,
    }
}

pub fn collision_at(cf: &CollisionField, p: &BoardPosition) -> (r: Option<CollisionFieldData>)
    ensures
        r == collision_at_spec(cf, *p),
{
    match (to_index(p.x), to_index(p.y), to_index(p.z)) {
        (Some(i), Some(j), Some(k)) => collision_get(cf, (i, j, k)),
        _ => None,
    }
}

pub fn collision_dims(cf: &CollisionField) -> (r: (usize, usize, usize))
    ensures
        r == collision_shape(*cf),
{
    collision_dim(cf)
}

impl CollisionField {
    /// Records `c` for the cell `p`; outside the field nothing changes.
    pub fn set(&mut self, p: &BoardPosition, c: CollisionFieldData)
        ensures
            collision_shape(*final(self)) == collision_shape(*old(self)),
            forall|q: BoardPosition|
                #[trigger] collision_at_spec(final(self), q) == if q.x == p.x && q.y == p.y && q.z == p.z
                    && collision_at_spec(old(self), q) is Some {
                    Some(c)
                } else {
                    collision_at_spec(old(self), q)
                },
    {
        let idx = match (to_index(p.x), to_index(p.y), to_index(p.z)) {
            (Some(i), Some(j), Some(k)) => (i, j, k),
            _ => return,
        };
        let shape = collision_dim(self);
        if idx.0 < shape.0 && idx.1 < shape.1 && idx.2 < shape.2 {
            collision_set(self, idx, c);
            assert forall|q: BoardPosition|
                #[trigger] collision_at_spec(self, q) == if q.x == p.x && q.y == p.y && q.z == p.z
                    && collision_at_spec(old(self), q) is Some {
                    Some(c)
                } else {
                    collision_at_spec(old(self), q)
                } by {
                if let Some(qi) = cell_index(q) {
                    assert(qi.0 as int == q.x && qi.1 as int == q.y && qi.2 as int == q.z);
                    assert((qi == idx) == (q.x == p.x && q.y == p.y && q.z == p.z));
                }
            }
        }
    }
}

pub open spec fn empty_cell() -> CollisionFieldData {
    CollisionFieldData { player_free: false, ghost_free: false, see_through: false, is_dynamic: false }
}

/// Builds the collision field of a map of `map_size` cells from its entities: every cell
/// starts empty, walkable entities make floor, and obstacles then override floor.
/// Entities outside the map are left out.
pub fn rebuild_collision_data(map_size: (usize, usize, usize), ents: &Vec<CollisionBehavior>) -> (r: CollisionField)
    requires
        nonzero_product(map_size) <= isize::MAX,
    ensures
        collision_shape(r) == map_size,
        forall|p: BoardPosition|
            #[trigger] collision_at_spec(&r, p) == if cell_index(p) matches Some(idx) && in_shape(idx, map_size) {
                Some(collision_cell_spec(ents@, p.x as int, p.y as int, p.z as int))
            } else {
                None
            },
{
    let empty = CollisionFieldData {
        player_free: false,
        ghost_free: false,
        see_through: false,
        is_dynamic: false,
    };
    let mut field = collision_from_elem(map_size, empty);
    let mut i: usize = 0;
    while i < ents.len()
        invariant
            i <= ents@.len(),
            collision_shape(field) == map_size,
            forall|p: BoardPosition|
                #[trigger] collision_at_spec(&field, p) == if cell_index(p) matches Some(idx) && in_shape(idx, map_size) {
                    Some(
                        if exists|j: int|
                            0 <= j < i && #[trigger] ents@[j].walkable && at(ents@[j], p.x as int, p.y as int, p.z as int) {
                            floor_cell()
                        } else {
                            empty
                        },
                    )
                } else {
                    None
                },
        decreases ents@.len() - i,
    {
        let e = ents[i];
        if e.walkable {
            field.set(&e.pos, CollisionFieldData {
                player_free: true,
                ghost_free: true,
                see_through: false,
                is_dynamic: false,
            });
        }
        proof {
            assert forall|p: BoardPosition|
                #[trigger] collision_at_spec(&field, p) == if cell_index(p) matches Some(idx) && in_shape(idx, map_size) {
                    Some(
                        if exists|j: int|
                            0 <= j < i + 1 && #[trigger] ents@[j].walkable && at(ents@[j], p.x as int, p.y as int, p.z as int) {
                            floor_cell()
                        } else {
                            empty
                        },
                    )
                } else {
                    None
                } by {
                if e.walkable && at(e, p.x as int, p.y as int, p.z as int) {
                    assert(ents@[i as int].walkable && at(ents@[i as int], p.x as int, p.y as int, p.z as int));
                }
            }
        }
        i = i + 1;
    }
    let mut i: usize = 0;
    while i < ents.len()
        invariant
            i <= ents@.len(),
            collision_shape(field) == map_size,
            forall|p: BoardPosition|
                #[trigger] collision_at_spec(&field, p) == if cell_index(p) matches Some(idx) && in_shape(idx, map_size) {
                    Some(
                        if has_obstacle(ents@.subrange(0, i as int), p.x as int, p.y as int, p.z as int) {
                            collision_cell_spec(ents@.subrange(0, i as int), p.x as int, p.y as int, p.z as int)
                        } else if exists|j: int|
                            0 <= j < ents@.len() && #[trigger] ents@[j].walkable && at(ents@[j], p.x as int, p.y as int, p.z as int) {
                            floor_cell()
                        } else {
                            empty
                        },
                    )
                } else {
                    None
                },
        decreases ents@.len() - i,
    {
        let e = ents[i];
        if e.player_collision {
            field.set(&e.pos, CollisionFieldData {
                player_free: false,
                ghost_free: !e.ghost_collision,
                see_through: e.see_through,
                is_dynamic: e.is_dynamic,
            });
        }
        proof {
            let pre = ents@.subrange(0, i as int);
            let sub = ents@.subrange(0, i + 1);
            assert(sub.drop_last() == pre);
            assert(sub.last() == e);
            assert forall|p: BoardPosition|
                #[trigger] collision_at_spec(&field, p) == if cell_index(p) matches Some(idx) && in_shape(idx, map_size) {
                    Some(
                        if has_obstacle(sub, p.x as int, p.y as int, p.z as int) {
                            collision_cell_spec(sub, p.x as int, p.y as int, p.z as int)
                        } else if exists|j: int|
                            0 <= j < ents@.len() && #[trigger] ents@[j].walkable && at(ents@[j], p.x as int, p.y as int, p.z as int) {
                            floor_cell()
                        } else {
                            empty
                        },
                    )
                } else {
                    None
                } by {
                let (x, y, z) = (p.x as int, p.y as int, p.z as int);
                if e.player_collision && at(e, x, y, z) {
                    assert(sub[i as int].player_collision && at(sub[i as int], x, y, z));
                } else {
                    if has_obstacle(sub, x, y, z) {
                        let j = choose|j: int| 0 <= j < sub.len() && #[trigger] sub[j].player_collision && at(sub[j], x, y, z);
                        assert(j != i);
                        assert(pre[j] == sub[j]);
                        assert(has_obstacle(pre, x, y, z));
                    }
                    if has_obstacle(pre, x, y, z) {
                        let j = choose|j: int| 0 <= j < pre.len() && #[trigger] pre[j].player_collision && at(pre[j], x, y, z);
                        assert(sub[j] == pre[j]);
                    }
                }
            }
        }
        i = i + 1;
    }
    proof {
        assert(ents@.subrange(0, ents@.len() as int) == ents@);
        assert forall|x: int, y: int, z: int| !has_obstacle(ents@, x, y, z) implies
            collision_cell_spec(ents@, x, y, z) == if exists|j: int|
                0 <= j < ents@.len() && #[trigger] ents@[j].walkable && at(ents@[j], x, y, z) {
                floor_cell()
            } else {
                empty
            } by {
            lemma_no_obstacle(ents@, x, y, z);
        }
    }
    field
}

proof fn lemma_no_obstacle(ents: Seq<CollisionBehavior>, x: int, y: int, z: int)
    requires
        !has_obstacle(ents, x, y, z),
    ensures
        collision_cell_spec(ents, x, y, z) == if exists|j: int|
            0 <= j < ents.len() && #[trigger] ents[j].walkable && at(ents[j], x, y, z) {
            floor_cell()
        } else {
            empty_cell()
        },
    decreases ents.len(),
{
    if ents.len() > 0 {
        let rest = ents.drop_last();
        assert(!has_obstacle(rest, x, y, z)) by {
            if has_obstacle(rest, x, y, z) {
                let j = choose|j: int| 0 <= j < rest.len() && #[trigger] rest[j].player_collision && at(rest[j], x, y, z);
                assert(ents[j] == rest[j]);
            }
        }
        lemma_no_obstacle(rest, x, y, z);
        if exists|j: int| 0 <= j < ents.len() && #[trigger] ents[j].walkable && at(ents[j], x, y, z) {
            let j = choose|j: int| 0 <= j < ents.len() && #[trigger] ents[j].walkable && at(ents[j], x, y, z);
            if j < ents.len() - 1 {
                assert(rest[j] == ents[j]);
            }
        }
        if exists|j: int| 0 <= j < rest.len() && #[trigger] rest[j].walkable && at(rest[j], x, y, z) {
            let j = choose|j: int| 0 <= j < rest.len() && #[trigger] rest[j].walkable && at(rest[j], x, y, z);
            assert(rest[j] == ents[j]);
        }
    }
}

} // verus!
