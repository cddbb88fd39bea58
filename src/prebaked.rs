use vstd::prelude::*;

use std::collections::HashSet;

use crate::board::{in_bounds_spec, is_in_bounds};
use crate::collision::{collision_at, collision_at_spec, CollisionField};
use crate::position::BoardPosition;
use crate::sector::LightFieldSector;

verus! {

broadcast use vstd::std_specs::hash::group_hash_axioms;

/// A light source of the prebaked map: the id its cells were baked under, if any, and
/// whether its behaviour currently lets it emit.
#[derive(Clone, Copy, Debug, Default, PartialEq, Eq, Structural)]
pub struct LightSourceState {
    pub source_id: Option<u32>,
    pub emission_enabled: bool,
}

/// The ids of the sources that emit now.
pub open spec fn active_ids(sources: Seq<LightSourceState>) -> Set<u32> {
    Set::new(
        |id: u32|
            exists|i: int|
                0 <= i < sources.len() && #[trigger] sources[i].source_id == Some(id)
                    && sources[i].emission_enabled,
    )
}

pub fn identify_active_light_sources(sources: &Vec<LightSourceState>) -> (r: HashSet<u32>)
    ensures
        r@ == active_ids(sources@),
{
    let mut active: HashSet<u32> = HashSet::new();
    let mut i: usize = 0;
    while i < sources.len()
        invariant
            i <= sources@.len(),
            active@ == active_ids(sources@.subrange(0, i as int)),
        decreases sources@.len() - i,
    {
        let s = sources[i];
        let ghost pre = sources@.subrange(0, i as int);
        let ghost sub = sources@.subrange(0, i + 1);
        if s.emission_enabled {
            match s.source_id {
                Some(id) => {
                    active.insert(id);
                },
                None => {},
            }
        }
        proof {
            assert forall|id: u32| #[trigger] active@.contains(id) == active_ids(sub).contains(id) by {
                if active_ids(pre).contains(id) {
                    let k = choose|k: int|
                        0 <= k < pre.len() && #[trigger] pre[k].source_id == Some(id) && pre[k].emission_enabled;
                    assert(sub[k] == pre[k]);
                }
                if active_ids(sub).contains(id) {
                    let k = choose|k: int|
                        0 <= k < sub.len() && #[trigger] sub[k].source_id == Some(id) && sub[k].emission_enabled;
                    if k < i {
                        assert(sub[k] == pre[k]);
                    }
                }
                if s.emission_enabled && s.source_id == Some(id) {
                    assert(sub[i as int] == s);
                }
            }
            assert(active@ =~= active_ids(sub));
        }
        i = i + 1;
    }
    assert(sources@.subrange(0, sources@.len() as int) == sources@);
    active
}

/// Whether the first behaviour recorded at `pos` lets its light emit; a cell with no
/// behaviour emits nothing.
pub open spec fn light_active_spec(pos: BoardPosition, behaviors: Seq<(BoardPosition, bool)>) -> bool
    decreases behaviors.len(),
{
    if behaviors.len() == 0 {
        false
    } else if behaviors[0].0 == pos {
        behaviors[0].1
    } else {
        light_active_spec(pos, behaviors.drop_first())
    }
}

pub fn is_light_active(pos: &BoardPosition, behaviors: &Vec<(BoardPosition, bool)>) -> (r: bool)
    ensures
        r == light_active_spec(*pos, behaviors@),
{
    let mut i: usize = 0;
    assert(behaviors@.subrange(0, behaviors@.len() as int) =~= behaviors@);
    while i < behaviors.len()
        invariant
            i <= behaviors@.len(),
            light_active_spec(*pos, behaviors@) == light_active_spec(*pos, behaviors@.subrange(i as int, behaviors@.len() as int)),
        decreases behaviors@.len() - i,
    {
        let ghost rest = behaviors@.subrange(i as int, behaviors@.len() as int);
        assert(rest[0] == behaviors@[i as int]);
        if behaviors[i].0 == *pos {
            return behaviors[i].1;
        }
        assert(rest.drop_first() =~= behaviors@.subrange(i + 1, behaviors@.len() as int));
        i = i + 1;
    }
    false
}

/// Whether a cell baked under `source_id` belongs to a source that emits now.
pub fn source_is_active(source_id: Option<u32>, active: &HashSet<u32>) -> (r: bool)
    ensures
        r == (source_id matches Some(id) && active@.contains(id)),
{
    match source_id {
        Some(id) => active.contains(&id),
        None => false,
    }
}

/// The source id that each cell of the map was baked under; a cell lit by no source holds
/// nothing.
pub type SourceField = LightFieldSector<u32>;

/// Some cell of the 3×3×3 block around `(i, j, k)` was baked under an active source.
pub open spec fn active_nearby_spec(sources: &SourceField, active: Set<u32>, i: int, j: int, k: int) -> bool {
    exists|dx: int, dy: int, dz: int|
        -1 <= dx <= 1 && -1 <= dy <= 1 && -1 <= dz <= 1 && (#[trigger] sources.cell(i + dx, j + dy, k + dz)
            matches Some(id) && active.contains(id))
}

pub fn has_active_light_nearby(sources: &SourceField, active: &HashSet<u32>, i: usize, j: usize, k: usize) -> (r: bool)
    requires
        sources.wf(),
        i < i64::MAX,
        j < i64::MAX,
        k < i64::MAX,
    ensures
        r == active_nearby_spec(sources, active@, i as int, j as int, k as int),
{
    let mut dx: i64 = -1;
    while dx <= 1
        invariant
            sources.wf(),
            i < i64::MAX,
            j < i64::MAX,
            k < i64::MAX,
            -1 <= dx <= 2,
            forall|ex: int, ey: int, ez: int|
                -1 <= ex < dx && -1 <= ey <= 1 && -1 <= ez <= 1 ==> !(#[trigger] sources.cell(
                    i + ex,
                    j + ey,
                    k + ez,
                ) matches Some(id) && active@.contains(id)),
        decreases 2 - dx,
    {
        let mut dy: i64 = -1;
        while dy <= 1
            invariant
                sources.wf(),
                i < i64::MAX,
                j < i64::MAX,
                k < i64::MAX,
                -1 <= dx <= 1,
                -1 <= dy <= 2,
                forall|ex: int, ey: int, ez: int|
                    (-1 <= ex < dx && -1 <= ey <= 1 && -1 <= ez <= 1) || (ex == dx && -1 <= ey < dy
                        && -1 <= ez <= 1) ==> !(#[trigger] sources.cell(i + ex, j + ey, k + ez) matches Some(
                        id,
                    ) && active@.contains(id)),
            decreases 2 - dy,
        {
            let mut dz: i64 = -1;
            while dz <= 1
                invariant
                    sources.wf(),
                    i < i64::MAX,
                    j < i64::MAX,
                    k < i64::MAX,
                    -1 <= dx <= 1,
                    -1 <= dy <= 1,
                    -1 <= dz <= 2,
                    forall|ex: int, ey: int, ez: int|
                        (-1 <= ex < dx && -1 <= ey <= 1 && -1 <= ez <= 1) || (ex == dx && -1 <= ey < dy
                            && -1 <= ez <= 1) || (ex == dx && ey == dy && -1 <= ez < dz) ==> !(
                        #[trigger] sources.cell(i + ex, j + ey, k + ez) matches Some(id) && active@.contains(id)),
                decreases 2 - dz,
            {
                let nx: i64 = i as i64 + dx;
                let ny: i64 = j as i64 + dy;
                let nz: i64 = k as i64 + dz;
                match sources.get(nx, ny, nz) {
                    Some(id) => {
                        if active.contains(id) {
                            return true;
                        }
                    },
                    None => {},
                }
                dz = dz + 1;
            }
            dy = dy + 1;
        }
        dx = dx + 1;
    }
    false
}

/// Indices of the wave edges, given by the source each was baked under, whose source emits
/// now, in increasing order.
pub fn find_wave_edge_tiles(edges: &Vec<Option<u32>>, active: &HashSet<u32>) -> (r: Vec<usize>)
    ensures
        forall|m: int| 0 <= m < r@.len() ==> #[trigger] r@[m] < edges@.len(),
        forall|m: int, n: int| 0 <= m < n < r@.len() ==> #[trigger] r@[m] < #[trigger] r@[n],
        forall|i: int|
            0 <= i < edges@.len() ==> (r@.contains(i as usize) <==> (#[trigger] edges@[i] matches Some(id)
                && active@.contains(id))),
{
    let mut r: Vec<usize> = Vec::new();
    let mut i: usize = 0;
    while i < edges.len()
        invariant
            i <= edges@.len(),
            forall|m: int| 0 <= m < r@.len() ==> #[trigger] r@[m] < i,
            forall|m: int, n: int| 0 <= m < n < r@.len() ==> #[trigger] r@[m] < #[trigger] r@[n],
            forall|j: int|
                0 <= j < i ==> (r@.contains(j as usize) <==> (#[trigger] edges@[j] matches Some(id)
                    && active@.contains(id))),
        decreases edges@.len() - i,
    {
        let ghost before = r@;
        if source_is_active(edges[i], active) {
            r.push(i);
        }
        proof {
            assert forall|j: int|
                0 <= j < i + 1 implies (r@.contains(j as usize) <==> (#[trigger] edges@[j] matches Some(id)
                    && active@.contains(id))) by {
                if r@.contains(j as usize) && j < i {
                    let m = choose|m: int| 0 <= m < r@.len() && r@[m] == j as usize;
                    if m < before.len() {
                        assert(before[m] == j);
                    }
                }
                if j < i && before.contains(j as usize) {
                    let m = choose|m: int| 0 <= m < before.len() && before[m] == j as usize;
                    assert(r@[m] == j);
                }
                if j == i && r@.len() > before.len() {
                    assert(r@[before.len() as int] == i);
                }
                if j == i && r@.contains(j as usize) {
                    let m = choose|m: int| 0 <= m < r@.len() && r@[m] == j as usize;
                    if m < before.len() {
                        assert(before[m] < i);
                    }
                }
            }
        }
        i = i + 1;
    }
    r
}

/// 2^32: the wave propagation's visited keys put the cell above the source id.
pub const KEY_SHIFT: u64 = 4294967296;

/// The four directions in which baked light spreads again from a wave edge.
pub open spec fn four_step(p: BoardPosition, d: int) -> BoardPosition {
    if d == 0 {
        BoardPosition { y: (p.y + 1) as i64, ..p }
    } else if d == 1 {
        BoardPosition { x: (p.x + 1) as i64, ..p }
    } else if d == 2 {
        BoardPosition { y: (p.y - 1) as i64, ..p }
    } else {
        BoardPosition { x: (p.x - 1) as i64, ..p }
    }
}

pub open spec fn in_map(p: BoardPosition, map_size: (usize, usize, usize)) -> bool {
    in_bounds_spec((p.x, p.y, p.z), map_size)
}

/// A cell that a source at `from` hands light to again: in the map, one of its four
/// neighbours, and not baked under that same source.
pub open spec fn spreads_to(
    sources: &SourceField,
    map_size: (usize, usize, usize),
    from: BoardPosition,
    source: u32,
    n: BoardPosition,
) -> bool {
    &&& exists|d: int| 0 <= d < 4 && #[trigger] four_step(from, d) == n
    &&& in_map(n, map_size)
    &&& sources.cell(n.x as int, n.y as int, n.z as int) != Some(source)
}

/// The collision field lets light of a dynamic source into the cell `n`.
pub open spec fn admits(cf: &CollisionField, n: BoardPosition) -> bool {
    collision_at_spec(cf, n) matches Some(c) && (c.see_through || c.is_dynamic)
}

pub open spec fn visit_key(p: BoardPosition, source: u32, map_size: (usize, usize, usize)) -> int {
    ((p.x * map_size.1 + p.y) * map_size.2 + p.z) * KEY_SHIFT + source
}

proof fn lemma_visit_key(p: BoardPosition, s: u32, q: BoardPosition, t: u32, m: (usize, usize, usize))
    requires
        in_map(p, m),
        in_map(q, m),
        m.0 * m.1 * m.2 < KEY_SHIFT,
    ensures
        0 <= visit_key(p, s, m) < KEY_SHIFT * KEY_SHIFT,
        visit_key(p, s, m) == visit_key(q, t, m) ==> p == q && s == t,
{
    let a = m.0 as int;
    let b = m.1 as int;
    let c = m.2 as int;
    let fp = (p.x * b + p.y) * c + p.z;
    let fq = (q.x * b + q.y) * c + q.z;
    assert(0 <= fp < a * b * c && 0 <= fq < a * b * c) by (nonlinear_arith)
        requires
            0 <= p.x < a, 0 <= p.y < b, 0 <= p.z < c, 0 <= q.x < a, 0 <= q.y < b, 0 <= q.z < c,
            fp == (p.x * b + p.y) * c + p.z, fq == (q.x * b + q.y) * c + q.z;
    assert(0 <= fp * KEY_SHIFT + s < KEY_SHIFT * KEY_SHIFT) by (nonlinear_arith)
        requires 0 <= fp < KEY_SHIFT, 0 <= s < KEY_SHIFT;
    if visit_key(p, s, m) == visit_key(q, t, m) {
        assert(fp == fq && s == t) by (nonlinear_arith)
            requires
                fp * KEY_SHIFT + s == fq * KEY_SHIFT + t, 0 <= s < KEY_SHIFT, 0 <= t < KEY_SHIFT,
                0 <= fp, 0 <= fq;
        assert(p.x == q.x && p.y == q.y && p.z == q.z) by (nonlinear_arith)
            requires
                0 <= p.x < a, 0 <= p.y < b, 0 <= p.z < c, 0 <= q.x < a, 0 <= q.y < b, 0 <= q.z < c,
                (p.x * b + p.y) * c + p.z == (q.x * b + q.y) * c + q.z;
    }
}

proof fn lemma_four_step_distinct(p: BoardPosition, e1: int, e2: int)
    requires
        0 <= e1 < 4,
        0 <= e2 < 4,
        e1 != e2,
        0 <= p.x < KEY_SHIFT,
        0 <= p.y < KEY_SHIFT,
    ensures
        four_step(p, e1) != four_step(p, e2),
{
}

/// The breadth-first spread of baked light past dynamic occluders, from the wave edges of
/// the active sources.
///
/// The spread decides which neighbours each queued cell hands its light to, and keeps
/// for every source the set of cells it has already been handed to, so that no source
/// reaches a cell twice; the caller computes the light and says which cells spread on.
pub struct WavePropagation {
    map_size: (usize, usize, usize),
    queue: Vec<(BoardPosition, u32)>,
    head: usize,
    visited: HashSet<u64>,
    pairs: Ghost<Set<(BoardPosition, u32)>>,
}

impl WavePropagation {
    /// The (cell, source) pairs handed out so far.
    pub closed spec fn handed_out(&self) -> Set<(BoardPosition, u32)> {
        self.pairs@
    }

    pub closed spec fn map(&self) -> (usize, usize, usize) {
        self.map_size
    }

    /// The queue, with the slot of each entry, and how far it has been taken.
    pub closed spec fn queued(&self) -> Seq<(BoardPosition, u32)> {
        self.queue@
    }

    pub closed spec fn taken(&self) -> int {
        self.head as int
    }

    pub closed spec fn wf(&self) -> bool {
        &&& self.map_size.0 * self.map_size.1 * self.map_size.2 < KEY_SHIFT
        &&& self.head <= self.queue@.len()
        &&& forall|i: int| 0 <= i < self.queue@.len() ==> in_map(#[trigger] self.queue@[i].0, self.map_size)
        &&& forall|pr: (BoardPosition, u32)| #[trigger] self.pairs@.contains(pr) ==> in_map(pr.0, self.map_size)
        &&& forall|p: BoardPosition, s: u32|
            in_map(p, self.map_size) ==> (#[trigger] self.pairs@.contains((p, s)) <==> self.visited@.contains(
                visit_key(p, s, self.map_size) as u64,
            ))
    }

    pub fn new(map_size: (usize, usize, usize)) -> (r: WavePropagation)
        requires
            map_size.0 * map_size.1 * map_size.2 < KEY_SHIFT,
        ensures
            r.wf(),
            r.map() == map_size,
            r.handed_out() == Set::<(BoardPosition, u32)>::empty(),
            r.queued() == Seq::<(BoardPosition, u32)>::empty(),
            r.taken() == 0,
    {
        WavePropagation {
            map_size,
            queue: Vec::new(),
            head: 0,
            visited: HashSet::new(),
            pairs: Ghost(Set::empty()),
        }
    }

    /// Queues `pos` with the light of `source`; returns the entry's slot.
    pub fn push(&mut self, pos: &BoardPosition, source: u32) -> (slot: usize)
        requires
            old(self).wf(),
            old(self).queued().len() < usize::MAX,
            in_map(*pos, old(self).map()),
        ensures
            final(self).wf(),
            final(self).map() == old(self).map(),
            final(self).handed_out() == old(self).handed_out(),
            final(self).queued() == old(self).queued().push((*pos, source)),
            final(self).taken() == old(self).taken(),
            slot == old(self).queued().len(),
    {
        self.queue.push((*pos, source));
        assert forall|i: int| 0 <= i < self.queue@.len() implies in_map(#[trigger] self.queue@[i].0, self.map_size) by {
            if i < self.queue@.len() - 1 {
                assert(self.queue@[i] == old(self).queue@[i]);
            }
        }
        self.queue.len() - 1
    }

    /// Takes the next queued entry and returns its slot, its cell and source, and the cells
    /// that receive its light: those it spreads to, that the source has not reached yet,
    /// and that the collision field lets light into, each with whether it is transparent
    /// (else it is a dynamic occluder). Every cell it spreads to counts as reached from then on.
    pub fn next(&mut self, sources: &SourceField, cf: &CollisionField) -> (r: Option<(usize, BoardPosition, u32, Vec<(BoardPosition, bool)>)>)
        requires
            old(self).wf(),
            sources.wf(),
        ensures
            final(self).wf(),
            final(self).map() == old(self).map(),
            final(self).queued() == old(self).queued(),
            r is None <==> old(self).taken() == old(self).queued().len(),
            r is None ==> final(self).handed_out() == old(self).handed_out() && final(self).taken() == old(self).taken(),
            r matches Some(t) ==> {
                let (slot, from, source, out) = t;
                &&& slot == old(self).taken()
                &&& final(self).taken() == old(self).taken() + 1
                &&& (from, source) == old(self).queued()[slot as int]
                &&& final(self).handed_out() == old(self).handed_out().union(
                    Set::new(|pr: (BoardPosition, u32)| pr.1 == source && spreads_to(sources, old(self).map(), from, source, pr.0)),
                )
                &&& forall|i: int|
                    0 <= i < out@.len() ==> {
                        &&& spreads_to(sources, old(self).map(), from, source, #[trigger] out@[i].0)
                        &&& !old(self).handed_out().contains((out@[i].0, source))
                        &&& admits(cf, out@[i].0)
                        &&& collision_at_spec(cf, out@[i].0) matches Some(c)
                            && out@[i].1 == c.see_through
                    }
                &&& forall|n: BoardPosition|
                    spreads_to(sources, old(self).map(), from, source, n) && !old(self).handed_out().contains(
                        (n, source),
                    ) && admits(cf, n) ==> exists|i: int| 0 <= i < out@.len() && #[trigger] out@[i].0 == n
            },
    {
        if self.head >= self.queue.len() {
            return None;
        }
        let slot = self.head;
        let (from, source) = self.queue[slot];
        self.head = self.head + 1;
        let ghost start_pairs = self.pairs@;
        let ghost m = self.map_size;
        let mut out: Vec<(BoardPosition, bool)> = Vec::new();
        let mut d: usize = 0;
        proof {
            let a = m.0 as int;
            let b = m.1 as int;
            let c = m.2 as int;
            assert(from.x < KEY_SHIFT && from.y < KEY_SHIFT) by (nonlinear_arith)
                requires 0 <= from.x < a, 0 <= from.y < b, 0 <= from.z < c, a * b * c < KEY_SHIFT;
            let empty_set = Set::new(|pr: (BoardPosition, u32)| pr.1 == source && exists|e: int| 0 <= e < 0 && #[trigger] four_step(from, e) == pr.0 && in_map(pr.0, m)
                && sources.cell(pr.0.x as int, pr.0.y as int, pr.0.z as int) != Some(source));
            assert(start_pairs.union(empty_set) =~= start_pairs);
        }
        while d < 4
            invariant
                self.wf(),
                sources.wf(),
                self.map_size == m,
                self.queue@ == old(self).queue@,
                self.head == slot + 1,
                start_pairs == old(self).pairs@,
                (from, source) == old(self).queue@[slot as int],
                in_map(from, m),
                from.x < KEY_SHIFT,
                from.y < KEY_SHIFT,
                d <= 4,
                self.pairs@ == start_pairs.union(
                    Set::new(|pr: (BoardPosition, u32)| pr.1 == source && exists|e: int| 0 <= e < d && #[trigger] four_step(from, e) == pr.0 && in_map(pr.0, m)
                        && sources.cell(pr.0.x as int, pr.0.y as int, pr.0.z as int) != Some(source)),
                ),
                forall|i: int|
                    0 <= i < out@.len() ==> {
                        &&& spreads_to(sources, m, from, source, #[trigger] out@[i].0)
                        &&& !start_pairs.contains((out@[i].0, source))
                        &&& admits(cf, out@[i].0)
                        &&& collision_at_spec(cf, out@[i].0) matches Some(c)
                            && out@[i].1 == c.see_through
                    },
                forall|n: BoardPosition|
                    (exists|e: int| 0 <= e < d && #[trigger] four_step(from, e) == n) && in_map(n, m)
                        && sources.cell(n.x as int, n.y as int, n.z as int) != Some(source)
                        && !start_pairs.contains((n, source)) && admits(cf, n) ==> exists|i: int|
                        0 <= i < out@.len() && #[trigger] out@[i].0 == n,
            decreases 4 - d,
        {
            let ghost pre_pairs = self.pairs@;
            let ghost pre_out = out@;
            let ghost old_visited = self.visited@;
            let ghost n_spec = four_step(from, d as int);
            let (dx, dy): (i64, i64) = if d == 0 {
                (0, 1)
            } else if d == 1 {
                (1, 0)
            } else if d == 2 {
                (0, -1)
            } else {
                (-1, 0)
            };
            let n = BoardPosition { x: from.x + dx, y: from.y + dy, z: from.z };
            assert(n == n_spec);
            if is_in_bounds((n.x, n.y, n.z), self.map_size) {
                let same = match sources.get_pos(&n) {
                    Some(id) => *id == source,
                    None => false,
                };
                if !same {
                    let ghost a = m.0 as int;
                    let ghost b = m.1 as int;
                    let ghost c = m.2 as int;
                    proof {
                        lemma_visit_key(n, source, n, source, m);
                        assert(n.x * b <= (n.x * b + n.y) * c + n.z < a * b * c) by (nonlinear_arith)
                            requires 0 <= n.x < a, 0 <= n.y < b, 0 <= n.z < c;
                        assert(0 <= n.x * b + n.y <= (n.x * b + n.y) * c) by (nonlinear_arith)
                            requires 0 <= n.x < a, 0 <= n.y < b, 0 <= n.z < c;
                        assert(0 <= n.x * b) by (nonlinear_arith)
                            requires 0 <= n.x, 0 <= b;
                    }
                    let flat: u64 = ((n.x as u64) * (self.map_size.1 as u64) + (n.y as u64)) * (
                    self.map_size.2 as u64) + (n.z as u64);
                    let key: u64 = flat * KEY_SHIFT + (source as u64);
                    assert(key as int == visit_key(n, source, m));
                    if !self.visited.contains(&key) {
                        self.visited.insert(key);
                        let ghost grown = self.pairs@.insert((n, source));
                        self.pairs = Ghost(grown);
                        proof {
                            assert forall|p: BoardPosition, t: u32|
                                in_map(p, self.map_size) implies (#[trigger] self.pairs@.contains((p, t))
                                <==> self.visited@.contains(visit_key(p, t, self.map_size) as u64)) by {
                                lemma_visit_key(p, t, n, source, m);
                                assert(pre_pairs.contains((p, t)) <==> old_visited.contains(visit_key(p, t, m) as u64));
                            }
                        }
                        match collision_at(cf, &n) {
                            Some(cell) => {
                                if cell.see_through || cell.is_dynamic {
                                    out.push((n, cell.see_through));
                                }
                            },
                            None => {},
                        }
                    }
                }
            }
            proof {
                let next_set = Set::new(|pr: (BoardPosition, u32)| pr.1 == source && exists|e: int| 0 <= e < d + 1 && #[trigger] four_step(from, e) == pr.0 && in_map(pr.0, m)
                    && sources.cell(pr.0.x as int, pr.0.y as int, pr.0.z as int) != Some(source));
                let prev_set = Set::new(|pr: (BoardPosition, u32)| pr.1 == source && exists|e: int| 0 <= e < d && #[trigger] four_step(from, e) == pr.0 && in_map(pr.0, m)
                    && sources.cell(pr.0.x as int, pr.0.y as int, pr.0.z as int) != Some(source));
                assert forall|pr: (BoardPosition, u32)| #[trigger] next_set.contains(pr) <==> prev_set.contains(pr) || (pr == (n, source) && in_map(n, m) && sources.cell(n.x as int, n.y as int, n.z as int) != Some(source)) by {
                    if next_set.contains(pr) && !prev_set.contains(pr) {
                        let e = choose|e: int| 0 <= e < d + 1 && #[trigger] four_step(from, e) == pr.0 && in_map(pr.0, m)
                            && sources.cell(pr.0.x as int, pr.0.y as int, pr.0.z as int) != Some(source);
                        assert(e == d);
                    }
                    if pr == (n, source) && in_map(n, m) && sources.cell(n.x as int, n.y as int, n.z as int) != Some(source) {
                        assert(four_step(from, d as int) == pr.0);
                    }
                }
                assert(self.pairs@ =~= start_pairs.union(next_set));
                assert forall|i: int| 0 <= i < out@.len() implies {
                        &&& spreads_to(sources, m, from, source, #[trigger] out@[i].0)
                        &&& !start_pairs.contains((out@[i].0, source))
                        &&& admits(cf, out@[i].0)
                        &&& collision_at_spec(cf, out@[i].0) matches Some(c)
                            && out@[i].1 == c.see_through
                    } by {
                    if i < pre_out.len() {
                        assert(out@[i] == pre_out[i]);
                    } else {
                        assert(out@[i].0 == n);
                        assert(four_step(from, d as int) == n);
                        assert(!pre_pairs.contains((n, source)));
                    }
                }
                assert forall|q: BoardPosition|
                    (exists|e: int| 0 <= e < d + 1 && #[trigger] four_step(from, e) == q) && in_map(q, m)
                        && sources.cell(q.x as int, q.y as int, q.z as int) != Some(source)
                        && !start_pairs.contains((q, source)) && admits(cf, q) implies exists|i: int|
                        0 <= i < out@.len() && #[trigger] out@[i].0 == q by {
                    let e = choose|e: int| 0 <= e < d + 1 && #[trigger] four_step(from, e) == q;
                    if e < d {
                        let i = choose|i: int| 0 <= i < pre_out.len() && #[trigger] pre_out[i].0 == q;
                        assert(out@[i] == pre_out[i]);
                    } else {
                        assert(q == n);
                        assert(!pre_pairs.contains((n, source))) by {
                            if pre_pairs.contains((n, source)) {
                                assert(prev_set.contains((n, source)));
                                let e2 = choose|e2: int| 0 <= e2 < d && #[trigger] four_step(from, e2) == n;
                                lemma_four_step_distinct(from, e2, d as int);
                            }
                        }
                        assert(out@[pre_out.len() as int].0 == q);
                    }
                }
            }
            d = d + 1;
        }
        Some((slot, from, source, out))
    }
}

} // verus!
