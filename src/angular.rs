use vstd::prelude::*;

use crate::position::BoardPosition;

verus! {

/// Number of angle buckets around a cell (7.5 degrees each).
pub const TAU_I: usize = 48;

/// Half a turn, in buckets.
pub const HALF_TAU: i64 = 24;

/// Largest offset, along x or along y, that the cache covers.
pub const CENTER: i64 = 32;

/// Cells along one side of the cached window.
pub const SZ: usize = 65;

/// Slots of the cached window.
pub const CELLS: usize = 4225;

/// A rounded polar angle, in buckets from -24 to 24, as the quantizer hands it over.
pub open spec fn is_raw_angle(a: int) -> bool {
    -HALF_TAU <= a <= HALF_TAU
}

/// The bucket (0..48) of a rounded polar angle.
pub open spec fn bucket_spec(raw: int) -> int {
    raw % (TAU_I as int)
}

/// A bucket difference brought back into `-24..=24` by one turn at most.
pub open spec fn wrap_spec(d: int) -> int {
    if d > HALF_TAU {
        d - TAU_I as int
    } else if d < -HALF_TAU {
        d + TAU_I as int
    } else {
        d
    }
}

pub open spec fn min_int(a: int, b: int) -> int {
    if a <= b {
        a
    } else {
        b
    }
}

pub open spec fn max_int(a: int, b: int) -> int {
    if a >= b {
        a
    } else {
        b
    }
}

/// Lowest bucket delta, from `own`, among the corners `cs`, and never above zero.
pub open spec fn range_lo(own: int, cs: Seq<i64>) -> int
    decreases cs.len(),
{
    if cs.len() == 0 {
        0
    } else {
        min_int(range_lo(own, cs.drop_last()), wrap_spec(cs.last() - own))
    }
}

/// Highest bucket delta, from `own`, among the corners `cs`, and never below zero.
pub open spec fn range_hi(own: int, cs: Seq<i64>) -> int
    decreases cs.len(),
{
    if cs.len() == 0 {
        0
    } else {
        max_int(range_hi(own, cs.drop_last()), wrap_spec(cs.last() - own))
    }
}

/// Slot of the offset `(dx, dy)` in the cached window.
pub open spec fn slot(dx: int, dy: int) -> int {
    (dx + CENTER) * (SZ as int) + (dy + CENTER)
}

pub open spec fn in_window(dx: int, dy: int) -> bool {
    -CENTER <= dx <= CENTER && -CENTER <= dy <= CENTER
}

/// The bucket of a rounded polar angle.
pub fn bucket_of(raw: i64) -> (r: usize)
    requires
        is_raw_angle(raw as int),
    ensures
        r as int == bucket_spec(raw as int),
        r < TAU_I,
{
    if raw < 0 {
        (raw + TAU_I as i64) as usize
    } else {
        raw as usize
    }
}

/// The difference `d` of two buckets, taken the short way round.
pub fn wrap_delta(d: i64) -> (r: i64)
    requires
        -3 * HALF_TAU <= d <= 3 * HALF_TAU,
    ensures
        r as int == wrap_spec(d as int),
        -HALF_TAU <= r <= HALF_TAU,
{
    if d > HALF_TAU {
        d - TAU_I as i64
    } else if d < -HALF_TAU {
        d + TAU_I as i64
    } else {
        d
    }
}

/// The buckets, relative to `own`, that a unit square spans, from the rounded polar
/// angles of its corners: `(min, max)` of the wrapped deltas, with zero always inside.
pub fn angle_range(own: usize, corners: &[i64; 4]) -> (r: (i64, i64))
    requires
        own < TAU_I,
        forall|i: int| 0 <= i < 4 ==> is_raw_angle(#[trigger] corners@[i] as int),
    ensures
        r.0 as int == range_lo(own as int, corners@),
        r.1 as int == range_hi(own as int, corners@),
        -HALF_TAU <= r.0 <= 0 <= r.1 <= HALF_TAU,
{
    let mut lo: i64 = 0;
    let mut hi: i64 = 0;
    let mut i: usize = 0;
    while i < 4
        invariant
            0 <= i <= 4,
            own < TAU_I,
            corners@.len() == 4,
            forall|j: int| 0 <= j < 4 ==> is_raw_angle(#[trigger] corners@[j] as int),
            lo as int == range_lo(own as int, corners@.subrange(0, i as int)),
            hi as int == range_hi(own as int, corners@.subrange(0, i as int)),
            -HALF_TAU <= lo <= 0 <= hi <= HALF_TAU,
        decreases 4 - i,
    {
        let d = wrap_delta(corners[i] - own as i64);
        assert(corners@.subrange(0, i + 1).drop_last() == corners@.subrange(0, i as int));
        if d < lo {
            lo = d;
        }
        if d > hi {
            hi = d;
        }
        i = i + 1;
    }
    assert(corners@.subrange(0, 4) == corners@);
    (lo, hi)
}

/// The tables depend on the offset alone, every bucket lies in `0..48`, and every span
/// has `min <= max`.
pub proof fn lemma_angle_tables(cache: &AngularCache, s1: BoardPosition, d1: BoardPosition, s2: BoardPosition, d2: BoardPosition)
    requires
        cache.wf(),
        in_window(d1.x - s1.x, d1.y - s1.y),
        d2.x - s2.x == d1.x - s1.x,
        d2.y - s2.y == d1.y - s1.y,
    ensures
        cache.angle_at(d1.x - s1.x, d1.y - s1.y) == cache.angle_at(d2.x - s2.x, d2.y - s2.y),
        cache.range_at(d1.x - s1.x, d1.y - s1.y) == cache.range_at(d2.x - s2.x, d2.y - s2.y),
        0 <= cache.angle_at(d1.x - s1.x, d1.y - s1.y) < TAU_I,
        cache.range_at(d1.x - s1.x, d1.y - s1.y).0 <= cache.range_at(d1.x - s1.x, d1.y - s1.y).1,
{
    lemma_slot(d1.x - s1.x, d1.y - s1.y);
}

proof fn lemma_slot(dx: int, dy: int)
    requires
        in_window(dx, dy),
    ensures
        0 <= slot(dx, dy) < CELLS,
        slot(dx, dy) / (SZ as int) == dx + CENTER,
        slot(dx, dy) % (SZ as int) == dy + CENTER,
        slot(dx, dy) == slot(0, 0) <==> dx == 0 && dy == 0,
{
    let a = dx + CENTER;
    let b = dy + CENTER;
    assert(0 <= a * 65 + b < 4225 && (a * 65 + b) / 65 == a && (a * 65 + b) % 65 == b)
        by (nonlinear_arith)
        requires 0 <= a <= 64, 0 <= b <= 64;
}

/// What the cache holds for an offset, from the rounded polar angles of the offset
/// and of its unit square's corners. The zero offset has no angle: bucket 0, no span.
pub open spec fn expected_angle(raw: int, dx: int, dy: int) -> int {
    if dx == 0 && dy == 0 {
        0
    } else {
        bucket_spec(raw)
    }
}

pub open spec fn expected_range(raw: int, corners: Seq<i64>, dx: int, dy: int) -> (int, int) {
    if dx == 0 && dy == 0 {
        (0, 0)
    } else {
        (range_lo(bucket_spec(raw), corners), range_hi(bucket_spec(raw), corners))
    }
}

/// Per-offset distance, angle bucket and bucket span, over the square window of
/// offsets up to `CENTER` along each axis; built once, then only read.
pub struct AngularCache {
    dist_sq: Vec<u32>,
    angle: Vec<usize>,
    range: Vec<(i64, i64)>,
}

impl AngularCache {
    pub closed spec fn wf(&self) -> bool {
        &&& self.dist_sq@.len() == CELLS
        &&& self.angle@.len() == CELLS
        &&& self.range@.len() == CELLS
        &&& forall|k: int| 0 <= k < CELLS ==> #[trigger] self.angle@[k] < TAU_I
        &&& forall|k: int|
            0 <= k < CELLS ==> -HALF_TAU <= (#[trigger] self.range@[k]).0 <= 0 <= self.range@[k].1
                <= HALF_TAU
    }

    /// Squared Euclidean length of the offset.
    pub closed spec fn dist_sq_at(&self, dx: int, dy: int) -> int {
        self.dist_sq@[slot(dx, dy)] as int
    }

    /// Angle bucket of the offset.
    pub closed spec fn angle_at(&self, dx: int, dy: int) -> int {
        self.angle@[slot(dx, dy)] as int
    }

    /// Span of buckets, relative to `angle_at`, that a unit square at the offset covers.
    pub closed spec fn range_at(&self, dx: int, dy: int) -> (int, int) {
        (self.range@[slot(dx, dy)].0 as int, self.range@[slot(dx, dy)].1 as int)
    }

    /// Builds the tables from the rounded polar angle of each offset (`raw`) and of the
    /// four corners of the unit square around it (`corners`), both laid out by `slot`.
    pub fn new(raw: &Vec<i64>, corners: &Vec<[i64; 4]>) -> (r: AngularCache)
        requires
            raw@.len() == CELLS,
            corners@.len() == CELLS,
            forall|k: int| 0 <= k < CELLS ==> is_raw_angle(#[trigger] raw@[k] as int),
            forall|k: int, i: int|
                0 <= k < CELLS && 0 <= i < 4 ==> is_raw_angle(#[trigger] corners@[k]@[i] as int),
        ensures
            r.wf(),
            forall|dx: int, dy: int|
                #![trigger r.angle_at(dx, dy)]
                #![trigger r.range_at(dx, dy)]
                #![trigger r.dist_sq_at(dx, dy)]
                in_window(dx, dy) ==> {
                    &&& r.dist_sq_at(dx, dy) == dx * dx + dy * dy
                    &&& r.angle_at(dx, dy) == expected_angle(raw@[slot(dx, dy)] as int, dx, dy)
                    &&& r.range_at(dx, dy) == expected_range(
                        raw@[slot(dx, dy)] as int,
                        corners@[slot(dx, dy)]@,
                        dx,
                        dy,
                    )
                },
    {
        let mut dist_sq: Vec<u32> = Vec::new();
        let mut angle: Vec<usize> = Vec::new();
        let mut range: Vec<(i64, i64)> = Vec::new();
        let mut ix: usize = 0;
        while ix < SZ
            invariant
                ix <= SZ,
                raw@.len() == CELLS,
                corners@.len() == CELLS,
                forall|k: int| 0 <= k < CELLS ==> is_raw_angle(#[trigger] raw@[k] as int),
                forall|k: int, i: int|
                    0 <= k < CELLS && 0 <= i < 4 ==> is_raw_angle(
                        #[trigger] corners@[k]@[i] as int,
                    ),
                dist_sq@.len() == ix * SZ,
                angle@.len() == ix * SZ,
                range@.len() == ix * SZ,
                forall|k: int| 0 <= k < angle@.len() ==> #[trigger] angle@[k] < TAU_I,
                forall|k: int|
                    0 <= k < range@.len() ==> -HALF_TAU <= (#[trigger] range@[k]).0 <= 0
                        <= range@[k].1 <= HALF_TAU,
                forall|dx: int, dy: int|
                    #![trigger slot(dx, dy)]
                    in_window(dx, dy) && slot(dx, dy) < ix * SZ ==> {
                        &&& dist_sq@[slot(dx, dy)] as int == dx * dx + dy * dy
                        &&& angle@[slot(dx, dy)] as int == expected_angle(
                            raw@[slot(dx, dy)] as int,
                            dx,
                            dy,
                        )
                        &&& (range@[slot(dx, dy)].0 as int, range@[slot(dx, dy)].1 as int)
                            == expected_range(
                            raw@[slot(dx, dy)] as int,
                            corners@[slot(dx, dy)]@,
                            dx,
                            dy,
                        )
                    },
            decreases SZ - ix,
        {
            let mut iy: usize = 0;
            while iy < SZ
                invariant
                    ix < SZ,
                    iy <= SZ,
                    raw@.len() == CELLS,
                    corners@.len() == CELLS,
                    forall|k: int| 0 <= k < CELLS ==> is_raw_angle(#[trigger] raw@[k] as int),
                    forall|k: int, i: int|
                        0 <= k < CELLS && 0 <= i < 4 ==> is_raw_angle(
                            #[trigger] corners@[k]@[i] as int,
                        ),
                    dist_sq@.len() == ix * SZ + iy,
                    angle@.len() == ix * SZ + iy,
                    range@.len() == ix * SZ + iy,
                    forall|k: int| 0 <= k < angle@.len() ==> #[trigger] angle@[k] < TAU_I,
                    forall|k: int|
                        0 <= k < range@.len() ==> -HALF_TAU <= (#[trigger] range@[k]).0 <= 0
                            <= range@[k].1 <= HALF_TAU,
                    forall|dx: int, dy: int|
                        #![trigger slot(dx, dy)]
                        in_window(dx, dy) && slot(dx, dy) < ix * SZ + iy ==> {
                            &&& dist_sq@[slot(dx, dy)] as int == dx * dx + dy * dy
                            &&& angle@[slot(dx, dy)] as int == expected_angle(
                                raw@[slot(dx, dy)] as int,
                                dx,
                                dy,
                            )
                            &&& (range@[slot(dx, dy)].0 as int, range@[slot(dx, dy)].1 as int)
                                == expected_range(
                                raw@[slot(dx, dy)] as int,
                                corners@[slot(dx, dy)]@,
                                dx,
                                dy,
                            )
                        },
                decreases SZ - iy,
            {
                let dx: i64 = ix as i64 - CENTER;
                let dy: i64 = iy as i64 - CENTER;
                let k: usize = ix * SZ + iy;
                proof {
                    lemma_slot(dx as int, dy as int);
                    assert(slot(dx as int, dy as int) == k);
                    assert(dx * dx + dy * dy <= 2048) by (nonlinear_arith)
                        requires -32 <= dx <= 32, -32 <= dy <= 32;
                    assert(dx * dx + dy * dy >= 0) by (nonlinear_arith);
                    assert(0 <= dx * dx <= 1024) by (nonlinear_arith)
                        requires -32 <= dx <= 32;
                    assert(0 <= dy * dy <= 1024) by (nonlinear_arith)
                        requires -32 <= dy <= 32;
                }
                let d: u32 = (dx * dx + dy * dy) as u32;
                let own: usize = bucket_of(raw[k]);
                let span: (i64, i64) = if dx == 0 && dy == 0 {
                    (0, 0)
                } else {
                    angle_range(own, &corners[k])
                };
                let a: usize = if dx == 0 && dy == 0 {
                    0
                } else {
                    own
                };
                dist_sq.push(d);
                angle.push(a);
                range.push(span);
                proof {
                    assert forall|ex: int, ey: int|
                        #![trigger slot(ex, ey)]
                        in_window(ex, ey) && slot(ex, ey) < ix * SZ + iy + 1 implies {
                            &&& dist_sq@[slot(ex, ey)] as int == ex * ex + ey * ey
                            &&& angle@[slot(ex, ey)] as int == expected_angle(
                                raw@[slot(ex, ey)] as int,
                                ex,
                                ey,
                            )
                            &&& (range@[slot(ex, ey)].0 as int, range@[slot(ex, ey)].1 as int)
                                == expected_range(
                                raw@[slot(ex, ey)] as int,
                                corners@[slot(ex, ey)]@,
                                ex,
                                ey,
                            )
                        } by {
                        lemma_slot(ex, ey);
                        if slot(ex, ey) == k {
                            assert(ex == dx && ey == dy);
                        }
                    }
                }
                iy = iy + 1;
            }
            ix = ix + 1;
        }
        AngularCache { dist_sq, angle, range }
    }

    /// Squared distance from `s` to `d` in the x-y plane.
    pub fn bpos_dist_sq(&self, s: &BoardPosition, d: &BoardPosition) -> (r: u32)
        requires
            self.wf(),
            in_window(d.x - s.x, d.y - s.y),
        ensures
            r as int == self.dist_sq_at(d.x - s.x, d.y - s.y),
    {
        let k = Self::slot_of(s, d);
        self.dist_sq[k]
    }

    /// Angle bucket of `d` seen from `s`.
    pub fn bpos_angle(&self, s: &BoardPosition, d: &BoardPosition) -> (r: usize)
        requires
            self.wf(),
            in_window(d.x - s.x, d.y - s.y),
        ensures
            r as int == self.angle_at(d.x - s.x, d.y - s.y),
            r < TAU_I,
    {
        let k = Self::slot_of(s, d);
        self.angle[k]
    }

    /// Span of buckets, relative to `bpos_angle(s, d)`, that the cell `d` covers seen from `s`.
    pub fn bpos_angle_range(&self, s: &BoardPosition, d: &BoardPosition) -> (r: (i64, i64))
        requires
            self.wf(),
            in_window(d.x - s.x, d.y - s.y),
        ensures
            (r.0 as int, r.1 as int) == self.range_at(d.x - s.x, d.y - s.y),
            -HALF_TAU <= r.0 <= 0 <= r.1 <= HALF_TAU,
    {
        let k = Self::slot_of(s, d);
        self.range[k]
    }

    fn slot_of(s: &BoardPosition, d: &BoardPosition) -> (k: usize)
        requires
            in_window(d.x - s.x, d.y - s.y),
        ensures
            k as int == slot(d.x - s.x, d.y - s.y),
            k < CELLS,
    {
        proof {
            lemma_slot(d.x - s.x, d.y - s.y);
        }
        let dx: i64 = d.x - s.x;
        let dy: i64 = d.y - s.y;
        ((dx + CENTER) as usize) * SZ + ((dy + CENTER) as usize)
    }
}

} // verus!
