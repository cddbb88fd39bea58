use vstd::prelude::*;

use crate::collision::{
    cell_index, collision_at, collision_at_spec, collision_dims, collision_shape, CollisionField,
};
use crate::board::window_seq;
use crate::position::{has_room, touches, BoardPosition};
use crate::sector::LightFieldSector;

verus! {

/// The collision field knows the cell `p`.
pub open spec fn present(cf: &CollisionField, p: BoardPosition) -> bool {
    collision_at_spec(cf, p) is Some
}

/// A sight line may leave the cell `p`: it is known, and walkable or transparent.
pub open spec fn expands(cf: &CollisionField, p: BoardPosition) -> bool {
    match collision_at_spec(cf, p) {
        Some(c) => c.player_free || c.see_through,
        None => false,
    }
}

/// The field's shape leaves one cell of room below the integer limit along x and y, and
/// its cells can be counted.
pub open spec fn roomy(cf: &CollisionField) -> bool {
    let s = collision_shape(*cf);
    &&& s.0 < i64::MAX
    &&& s.1 < i64::MAX
    &&& s.2 <= i64::MAX
    &&& s.0 * s.1 * s.2 <= usize::MAX
}

/// A known cell lies inside the shape, and every cell inside the shape is known.
proof fn lemma_present(cf: &CollisionField, p: BoardPosition)
    ensures
        present(cf, p) <==> (0 <= p.x < collision_shape(*cf).0 && 0 <= p.y < collision_shape(*cf).1 && 0 <= p.z
            < collision_shape(*cf).2),
{
    if 0 <= p.x < collision_shape(*cf).0 && 0 <= p.y < collision_shape(*cf).1 && 0 <= p.z < collision_shape(*cf).2 {
        assert(cell_index(p) == Some((p.x as usize, p.y as usize, p.z as usize)));
    }
}

/// A set of cells that holds `start` and every known neighbour of each of its cells that
/// a sight line may leave.
pub open spec fn closed_region(cf: &CollisionField, region: Set<BoardPosition>, start: BoardPosition) -> bool {
    &&& region.contains(start)
    &&& forall|q: BoardPosition, p: BoardPosition|
        #![trigger region.contains(q), touches(q, p)]
        region.contains(q) && expands(cf, q) && touches(q, p) && present(cf, p) ==> region.contains(p)
}

/// The `i`-th cell reached has a parent before it: an expanded cell that it touches.
pub open spec fn has_parent(cf: &CollisionField, o: Seq<BoardPosition>, i: int) -> bool {
    exists|j: int| 0 <= j < i && expands(cf, #[trigger] o[j]) && touches(o[j], o[i]) && present(cf, o[i])
}

/// Keeps the known cells other than `pos`.
pub open spec fn neighbor_filter(cf: &CollisionField, pos: BoardPosition) -> spec_fn(BoardPosition) -> bool {
    |q: BoardPosition| q != pos && present(cf, q)
}

/// The known neighbours of `pos` in its z-plane, in the order of `xy_neighbors(1)`.
pub open spec fn neighbor_seq(cf: &CollisionField, pos: BoardPosition) -> Seq<BoardPosition> {
    window_seq(pos, 1).filter(neighbor_filter(cf, pos))
}

/// The known neighbours of `pos` in its z-plane, in the eight directions.
pub fn known_neighbors(cf: &CollisionField, pos: &BoardPosition) -> (r: Vec<BoardPosition>)
    requires
        roomy(cf),
        present(cf, *pos),
    ensures
        r@ == neighbor_seq(cf, *pos),
        forall|i: int| 0 <= i < r@.len() ==> touches(*pos, #[trigger] r@[i]) && present(cf, r@[i]),
        forall|q: BoardPosition| touches(*pos, q) && present(cf, q) ==> r@.contains(q),
{
    proof {
        lemma_present(cf, *pos);
        assert(crate::position::window_side(1) == 3);
    }
    assert(has_room(*pos, 1));
    let window = pos.xy_neighbors(1);
    let ghost win = window_seq(*pos, 1);
    let ghost pred = neighbor_filter(cf, *pos);
    assert(window@ =~= win);
    let mut r: Vec<BoardPosition> = Vec::new();
    let mut i: usize = 0;
    assert(win.take(0).filter(pred) =~= Seq::<BoardPosition>::empty()) by {
        reveal(Seq::filter);
    }
    while i < window.len()
        invariant
            window@ == win,
            pred == neighbor_filter(cf, *pos),
            r@ == win.take(i as int).filter(pred),
            roomy(cf),
            has_room(*pos, 1),
            i <= window@.len(),
            window@.len() == 9,
            forall|k: int| 0 <= k < 9 ==> #[trigger] window@[k] == crate::position::window_cell(*pos, 1, k),
            forall|k: int| 0 <= k < r@.len() ==> touches(*pos, #[trigger] r@[k]) && present(cf, r@[k]),
            forall|k: int| 0 <= k < i && touches(*pos, #[trigger] window@[k]) && present(cf, window@[k]) ==> r@.contains(window@[k]),
        decreases window@.len() - i,
    {
        let q = window[i];
        assert(0 <= i / 3 <= 2 && 0 <= i % 3 <= 2);
        assert(q == crate::position::window_cell(*pos, 1, i as int));
        assert(crate::position::window_side(1) == 3);
        assert(q.x == pos.x + (i as int) / 3 - 1);
        assert(q.y == pos.y + (i as int) % 3 - 1);
        assert(q.z == pos.z && -1 <= q.x - pos.x <= 1 && -1 <= q.y - pos.y <= 1);
        let ghost before = r@;
        let keep = q != *pos && collision_at(cf, &q).is_some();
        assert(pred(q) == keep);
        assert(win.take(i + 1).drop_last() =~= win.take(i as int));
        assert(win.take(i + 1).last() == q);
        assert(win.take(i + 1).filter(pred) == if keep {
            win.take(i as int).filter(pred).push(q)
        } else {
            win.take(i as int).filter(pred)
        }) by {
            reveal(Seq::filter);
            assert(win.take(i + 1).len() > 0);
        }
        if keep {
            r.push(q);
            proof {
                assert(r@[r@.len() - 1] == q);
                assert forall|x: BoardPosition| before.contains(x) implies r@.contains(x) by {
                    let k = choose|k: int| 0 <= k < before.len() && before[k] == x;
                    assert(r@[k] == x);
                }
            }
        }
        i = i + 1;
    }
    proof {
        assert(win.take(window@.len() as int) =~= win);
        assert forall|q: BoardPosition| touches(*pos, q) && present(cf, q) implies r@.contains(q) by {
            let k = (q.x - pos.x + 1) * 3 + (q.y - pos.y + 1);
            assert(k / 3 == q.x - pos.x + 1 && k % 3 == q.y - pos.y + 1);
            assert(window@[k] == q);
        }
    }
    r
}

/// The breadth-first expansion of a viewer's sight over the collision field.
///
/// The flood decides which cells are expanded, in which order, and which cells can take
/// a value; the caller computes the values and says which neighbours got one.
pub struct VisibilityFlood {
    queue: Vec<(BoardPosition, BoardPosition)>,
    head: usize,
    seen: LightFieldSector<bool>,
    start: BoardPosition,
    current: Option<BoardPosition>,
    order: Ghost<Seq<BoardPosition>>,
}

impl VisibilityFlood {
    /// The cell where the flood began.
    pub closed spec fn start_cell(&self) -> BoardPosition {
        self.start
    }

    /// The cells that have a value so far.
    pub closed spec fn reached(&self) -> Set<BoardPosition> {
        self.order@.to_set()
    }

    /// The queued cells not taken yet, each with the cell it was reached from.
    pub closed spec fn pending(&self) -> Seq<(BoardPosition, BoardPosition)> {
        self.queue@.subrange(self.head as int, self.queue@.len() as int)
    }

    /// The cell being expanded, whose neighbours `reach` accepts.
    pub closed spec fn expanding(&self) -> Option<BoardPosition> {
        self.current
    }

    pub closed spec fn wf(&self, cf: &CollisionField) -> bool {
        &&& roomy(cf)
        &&& self.seen.wf()
        &&& self.seen.lo() == (0int, 0int, 0int)
        &&& self.seen.size() == (collision_shape(*cf).0 as int, collision_shape(*cf).1 as int, collision_shape(*cf).2 as int)
        &&& self.order@.len() > 0
        &&& self.order@[0] == self.start
        &&& forall|i: int| 0 < i < self.order@.len() ==> #[trigger] has_parent(cf, self.order@, i)
        &&& forall|p: BoardPosition|
            #![trigger self.seen.cell(p.x as int, p.y as int, p.z as int)]
            present(cf, p) ==> (self.seen.cell(p.x as int, p.y as int, p.z as int) == Some(
                self.order@.contains(p),
            ))
        &&& forall|i: int| 0 <= i < self.queue@.len() ==> self.order@.contains(#[trigger] self.queue@[i].0)
        &&& self.head <= self.queue@.len()
        &&& self.current matches Some(c) ==> self.order@.contains(c) && expands(cf, c)
    }

    /// Starts a flood at `start`, which alone has a value.
    pub fn new(cf: &CollisionField, start: &BoardPosition) -> (r: VisibilityFlood)
        requires
            roomy(cf),
        ensures
            r.wf(cf),
            r.start_cell() == *start,
            r.reached() == set![*start],
            r.pending() == seq![(*start, *start)],
            r.expanding() is None,
    {
        let mut seen = LightFieldSector::filled((0, 0, 0), collision_dims(cf), false);
        seen.insert(start.x, start.y, start.z, true);
        let mut queue: Vec<(BoardPosition, BoardPosition)> = Vec::new();
        queue.push((*start, *start));
        let ghost first: Seq<BoardPosition> = seq![*start];
        let r = VisibilityFlood {
            queue,
            head: 0,
            seen,
            start: *start,
            current: None,
            order: Ghost(first),
        };
        proof {
            assert(r.order@.to_set() =~= set![*start]) by {
                assert forall|p: BoardPosition| r.order@.contains(p) <==> p == *start by {
                    if p == *start {
                        assert(r.order@[0] == p);
                    }
                }
            }
            assert forall|p: BoardPosition|
                #![trigger r.seen.cell(p.x as int, p.y as int, p.z as int)]
                present(cf, p) implies (r.seen.cell(p.x as int, p.y as int, p.z as int) == Some(
                    r.order@.contains(p),
                )) by {
                lemma_present(cf, p);
                lemma_present(cf, *start);
                if p == *start {
                    assert(r.order@[0] == p);
                } else {
                    assert(!r.order@.contains(p)) by {
                        if r.order@.contains(p) {
                            let k = choose|k: int| 0 <= k < r.order@.len() && r.order@[k] == p;
                        }
                    }
                }
            }
            assert(r.queue@[0].0 == *start);
            assert(r.order@[0] == *start);
            assert(r.pending() =~= seq![(*start, *start)]);
        }
        r
    }

    /// Takes the next queued cell that a sight line may leave, and returns it with the cell
    /// it was reached from and its known neighbours; `None` once the queue is spent.
    pub fn next(&mut self, cf: &CollisionField) -> (r: Option<(BoardPosition, BoardPosition, Vec<BoardPosition>)>)
        requires
            old(self).wf(cf),
        ensures
            final(self).wf(cf),
            final(self).start_cell() == old(self).start_cell(),
            final(self).reached() == old(self).reached(),
            final(self).expanding() == match r {
                Some(t) => Some(t.0),
                None => None,
            },
            r is None <==> forall|i: int|
                0 <= i < old(self).pending().len() ==> !expands(cf, #[trigger] old(self).pending()[i].0),
            r is None ==> final(self).pending().len() == 0,
            r matches Some(t) ==> {
                &&& old(self).reached().contains(t.0)
                &&& expands(cf, t.0)
                &&& t.2@ == neighbor_seq(cf, t.0)
                &&& forall|i: int| 0 <= i < t.2@.len() ==> touches(t.0, #[trigger] t.2@[i]) && present(cf, t.2@[i])
                &&& forall|q: BoardPosition| touches(t.0, q) && present(cf, q) ==> t.2@.contains(q)
                &&& exists|k: int|
                    0 <= k < old(self).pending().len() && old(self).pending()[k] == (t.0, t.1) && (forall|j: int|
                        0 <= j < k ==> !expands(cf, #[trigger] old(self).pending()[j].0)) && final(self).pending()
                        == old(self).pending().subrange(k + 1, old(self).pending().len() as int)
            },
    {
        let ghost start_head = self.head as int;
        self.current = None;
        while self.head < self.queue.len()
            invariant
                self.wf(cf),
                self.start == old(self).start,
                self.order == old(self).order,
                self.queue == old(self).queue,
                self.current is None,
                start_head == old(self).head,
                start_head <= self.head,
                forall|j: int| start_head <= j < self.head ==> !expands(cf, #[trigger] self.queue@[j].0),
            decreases self.queue@.len() - self.head,
        {
            let (pos, from) = self.queue[self.head];
            let ghost k = self.head - start_head;
            self.head = self.head + 1;
            match collision_at(cf, &pos) {
                Some(c) => {
                    if c.lets_sight_through() {
                        self.current = Some(pos);
                        let nbors = known_neighbors(cf, &pos);
                        proof {
                            let op = old(self).pending();
                            assert(op[k] == (pos, from));
                            assert forall|j: int| 0 <= j < k implies !expands(cf, #[trigger] op[j].0) by {
                                assert(op[j] == self.queue@[start_head + j]);
                            }
                            assert(self.pending() =~= op.subrange(k + 1, op.len() as int));
                        }
                        return Some((pos, from, nbors));
                    }
                },
                None => {},
            }
        }
        proof {
            let op = old(self).pending();
            assert forall|i: int| 0 <= i < op.len() implies !expands(cf, #[trigger] op[i].0) by {
                assert(op[i] == self.queue@[start_head + i]);
            }
        }
        None
    }

    /// Gives `p`, a known neighbour of the cell being expanded, a value. Returns whether
    /// `p` had none before: the caller then starts its value afresh, and the flood queues it.
    /// Anything else leaves the flood as it was and returns `false`.
    pub fn reach(&mut self, cf: &CollisionField, p: &BoardPosition) -> (r: bool)
        requires
            old(self).wf(cf),
        ensures
            final(self).wf(cf),
            final(self).start_cell() == old(self).start_cell(),
            final(self).expanding() == old(self).expanding(),
            r == (old(self).expanding() matches Some(c) && touches(c, *p) && present(cf, *p)
                && !old(self).reached().contains(*p)),
            final(self).reached() == if r {
                old(self).reached().insert(*p)
            } else {
                old(self).reached()
            },
            final(self).pending() == if r {
                old(self).pending().push((*p, old(self).expanding().unwrap()))
            } else {
                old(self).pending()
            },
    {
        let c = match self.current {
            Some(c) => c,
            None => return false,
        };
        let dx: i128 = c.x as i128 - p.x as i128;
        let dy: i128 = c.y as i128 - p.y as i128;
        if dx < -1 || dx > 1 || dy < -1 || dy > 1 || c.z != p.z || c == *p {
            return false;
        }
        if collision_at(cf, p).is_none() {
            return false;
        }
        proof {
            lemma_present(cf, *p);
        }
        let already = match self.seen.get_pos(p) {
            Some(v) => *v,
            None => return false,
        };
        if already {
            return false;
        }
        let ghost pre = *self;
        self.seen.insert(p.x, p.y, p.z, true);
        self.queue.push((*p, c));
        let ghost longer = self.order@.push(*p);
        self.order = Ghost(longer);
        proof {
            let o = self.order@;
            assert(o.drop_last() =~= pre.order@);
            assert forall|i: int| 0 < i < o.len() implies #[trigger] has_parent(cf, o, i) by {
                if i == o.len() - 1 {
                    let j = choose|j: int| 0 <= j < pre.order@.len() && pre.order@[j] == c;
                    assert(o[j] == c);
                    assert(expands(cf, o[j]) && touches(o[j], o[i]) && present(cf, o[i]));
                } else {
                    assert(has_parent(cf, pre.order@, i));
                    let j = choose|j: int|
                        0 <= j < i && expands(cf, #[trigger] pre.order@[j]) && touches(pre.order@[j], pre.order@[i])
                            && present(cf, pre.order@[i]);
                    assert(o[j] == pre.order@[j]);
                    assert(expands(cf, o[j]) && touches(o[j], o[i]) && present(cf, o[i]));
                }
            }
            assert forall|q: BoardPosition| #[trigger] o.contains(q) <==> pre.order@.contains(q) || q == *p by {
                if pre.order@.contains(q) {
                    let k = choose|k: int| 0 <= k < pre.order@.len() && pre.order@[k] == q;
                    assert(o[k] == q);
                }
                if q == *p {
                    assert(o[o.len() - 1] == q);
                }
                if o.contains(q) && q != *p {
                    let k = choose|k: int| 0 <= k < o.len() && o[k] == q;
                    assert(pre.order@[k] == q);
                }
            }
            assert forall|i: int| 0 <= i < self.queue@.len() implies o.contains(#[trigger] self.queue@[i].0) by {
                if i < pre.queue@.len() {
                    assert(pre.queue@[i] == self.queue@[i]);
                }
            }
            assert(o.to_set() =~= pre.order@.to_set().insert(*p));
            assert(self.pending() =~= pre.pending().push((*p, c)));
            assert forall|q: BoardPosition|
                #![trigger self.seen.cell(q.x as int, q.y as int, q.z as int)]
                present(cf, q) implies (self.seen.cell(q.x as int, q.y as int, q.z as int) == Some(
                    o.contains(q),
                )) by {
                lemma_present(cf, q);
                assert(pre.seen.cell(q.x as int, q.y as int, q.z as int) == Some(pre.order@.contains(q)));
                assert(o.contains(q) == (pre.order@.contains(q) || q == *p));
            }
            if let Some(cc) = self.current {
                assert(o.contains(cc));
            }
        }
        true
    }

    /// Whether the cell `p` has a value.
    pub fn is_reached(&self, cf: &CollisionField, p: &BoardPosition) -> (r: bool)
        requires
            self.wf(cf),
        ensures
            r == self.reached().contains(*p),
    {
        if *p == self.start {
            proof {
                assert(self.order@[0] == *p);
            }
            return true;
        }
        if collision_at(cf, p).is_none() {
            proof {
                if self.order@.contains(*p) {
                    let k = choose|k: int| 0 <= k < self.order@.len() && self.order@[k] == *p;
                    assert(k != 0);
                    assert(has_parent(cf, self.order@, k));
                }
            }
            return false;
        }
        let r = match self.seen.get_pos(p) {
            Some(v) => *v,
            None => false,
        };
        proof {
            if !present(cf, *p) && self.order@.contains(*p) {
                let k = choose|k: int| 0 <= k < self.order@.len() && self.order@[k] == *p;
                assert(k != 0);
                assert(has_parent(cf, self.order@, k));
                let j = choose|j: int|
                    0 <= j < k && expands(cf, #[trigger] self.order@[j]) && touches(self.order@[j], self.order@[k])
                        && present(cf, self.order@[k]);
            }
        }
        r
    }
}

/// The flood never leaves a region closed under expansion from its start: a cell walled
/// off from the viewer by cells that a sight line cannot leave never gets a value.
pub proof fn lemma_flood_stays_in_region(
    cf: &CollisionField,
    flood: &VisibilityFlood,
    region: Set<BoardPosition>,
)
    requires
        flood.wf(cf),
        closed_region(cf, region, flood.start_cell()),
    ensures
        flood.reached().subset_of(region),
{
    let o = flood.order@;
    assert forall|i: int| 0 <= i < o.len() implies region.contains(#[trigger] o[i]) by {
        lemma_prefix_in_region(cf, o, region, i);
    }
    assert forall|p: BoardPosition| flood.reached().contains(p) implies region.contains(p) by {
        let k = choose|k: int| 0 <= k < o.len() && o[k] == p;
    }
}

proof fn lemma_prefix_in_region(cf: &CollisionField, o: Seq<BoardPosition>, region: Set<BoardPosition>, i: int)
    requires
        0 <= i < o.len(),
        closed_region(cf, region, o[0]),
        forall|k: int| 0 < k < o.len() ==> #[trigger] has_parent(cf, o, k),
    ensures
        region.contains(o[i]),
    decreases i,
{
    if i > 0 {
        assert(has_parent(cf, o, i));
        let j = choose|j: int| 0 <= j < i && expands(cf, #[trigger] o[j]) && touches(o[j], o[i]) && present(cf, o[i]);
        lemma_prefix_in_region(cf, o, region, j);
    }
}

} // verus!
