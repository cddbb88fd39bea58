use vstd::prelude::*;

use crate::angular::{in_window, AngularCache, HALF_TAU, TAU_I};
use crate::position::BoardPosition;

verus! {

/// Number of propagation passes of a full rebuild.
pub const PASSES: u32 = 3;

/// Neighbourhood radius of each pass: wide for the primary falloff, then narrow for the
/// local bounces.
pub open spec fn pass_radius_spec(step: int) -> int {
    if step == 0 {
        26
    } else if step == 1 {
        6
    } else {
        3
    }
}

pub fn pass_radius(step: u32) -> (r: u32)
    requires
        step < PASSES,
    ensures
        r as int == pass_radius_spec(step as int),
{
    if step == 0 {
        26
    } else if step == 1 {
        6
    } else {
        3
    }
}

/// Whether the cell at offset `(dx, dy)` from a source hides the bucket `b`: `b` lies in
/// the span of buckets that the cell's unit square covers.
pub open spec fn covers(cache: &AngularCache, dx: int, dy: int, b: int) -> bool {
    exists|d: int|
        cache.range_at(dx, dy).0 <= d <= cache.range_at(dx, dy).1 && #[trigger] ((
        cache.angle_at(dx, dy) + d) % (TAU_I as int)) == b
}

/// Shadow floor of bucket `b` around `root`: the smallest squared distance of an occluder
/// that hides `b`, and `open` where none does.
pub open spec fn floor_spec(
    cache: &AngularCache,
    root: BoardPosition,
    occ: Seq<BoardPosition>,
    open: int,
    b: int,
) -> int
    decreases occ.len(),
{
    if occ.len() == 0 {
        open
    } else {
        let o = occ.last();
        let f = floor_spec(cache, root, occ.drop_last(), open, b);
        if covers(cache, o.x - root.x, o.y - root.y, b) {
            let d = cache.dist_sq_at(o.x - root.x, o.y - root.y);
            if d < f {
                d
            } else {
                f
            }
        } else {
            f
        }
    }
}

/// Squared shadow floors, one per bucket, around a source at `root` with `radius`.
/// An opaque source lets no light out: every floor is zero. Otherwise each floor is the
/// smallest squared distance among the `occluders` that hide its bucket, and
/// `(radius + 1)²` where none does.
pub fn shadow_floors(
    cache: &AngularCache,
    root: &BoardPosition,
    radius: u32,
    occluders: &Vec<BoardPosition>,
    source_opaque: bool,
) -> (r: Vec<u64>)
    requires
        cache.wf(),
        radius <= 1000,
        forall|i: int|
            0 <= i < occluders@.len() ==> in_window(
                #[trigger] occluders@[i].x - root.x,
                occluders@[i].y - root.y,
            ),
    ensures
        r@.len() == TAU_I,
        forall|b: int|
            0 <= b < TAU_I ==> #[trigger] r@[b] as int == if source_opaque {
                0
            } else {
                floor_spec(cache, *root, occluders@, (radius + 1) * (radius + 1), b)
            },
{
    assert((radius + 1) * (radius + 1) <= 1002001) by (nonlinear_arith)
        requires radius <= 1000;
    let open: u64 = (radius as u64 + 1) * (radius as u64 + 1);
    let ghost open_i: int = (radius + 1) * (radius + 1);
    let mut floors: Vec<u64> = Vec::new();
    let mut b: usize = 0;
    while b < TAU_I
        invariant
            b <= TAU_I,
            open == open_i,
            floors@.len() == b,
            forall|j: int| 0 <= j < b ==> #[trigger] floors@[j] == open,
        decreases TAU_I - b,
    {
        floors.push(open);
        b = b + 1;
    }
    if source_opaque {
        let mut j: usize = 0;
        while j < TAU_I
            invariant
                j <= TAU_I,
                floors@.len() == TAU_I,
                forall|k: int| 0 <= k < j ==> #[trigger] floors@[k] == 0,
            decreases TAU_I - j,
        {
            floors.set(j, 0);
            j = j + 1;
        }
        return floors;
    }
    let mut i: usize = 0;
    while i < occluders.len()
        invariant
            cache.wf(),
            i <= occluders@.len(),
            floors@.len() == TAU_I,
            forall|k: int|
                0 <= k < occluders@.len() ==> in_window(
                    #[trigger] occluders@[k].x - root.x,
                    occluders@[k].y - root.y,
                ),
            forall|c: int|
                0 <= c < TAU_I ==> #[trigger] floors@[c] as int == floor_spec(
                    cache,
                    *root,
                    occluders@.subrange(0, i as int),
                    open_i,
                    c,
                ),
        decreases occluders@.len() - i,
    {
        let o = &occluders[i];
        let dsq: u64 = cache.bpos_dist_sq(root, o) as u64;
        let angle: usize = cache.bpos_angle(root, o);
        let span: (i64, i64) = cache.bpos_angle_range(root, o);
        let ghost prev = floors@;
        let ghost dx = o.x - root.x;
        let ghost dy = o.y - root.y;
        let mut d: i64 = span.0;
        while d <= span.1
            invariant
                cache.wf(),
                floors@.len() == TAU_I,
                prev.len() == TAU_I,
                span.0 <= d <= span.1 + 1,
                -HALF_TAU <= span.0 <= 0 <= span.1 <= HALF_TAU,
                angle < TAU_I,
                angle as int == cache.angle_at(dx, dy),
                (span.0 as int, span.1 as int) == cache.range_at(dx, dy),
                forall|c: int|
                    0 <= c < TAU_I ==> #[trigger] floors@[c] == if exists|e: int|
                        span.0 <= e < d && #[trigger] ((angle + e) % (TAU_I as int)) == c {
                        if (dsq as int) < (prev[c] as int) {
                            dsq
                        } else {
                            prev[c]
                        }
                    } else {
                        prev[c]
                    },
            decreases span.1 + 1 - d,
        {
            let s: i64 = angle as i64 + d;
            let ang: usize = if s < 0 {
                (s + TAU_I as i64) as usize
            } else if s >= TAU_I as i64 {
                (s - TAU_I as i64) as usize
            } else {
                s as usize
            };
            assert(ang as int == (angle + d) % (TAU_I as int));
            if dsq < floors[ang] {
                floors.set(ang, dsq);
            }
            proof {
                assert forall|c: int|
                    0 <= c < TAU_I implies #[trigger] floors@[c] == if exists|e: int|
                        span.0 <= e < d + 1 && #[trigger] ((angle + e) % (TAU_I as int)) == c {
                        if (dsq as int) < (prev[c] as int) {
                            dsq
                        } else {
                            prev[c]
                        }
                    } else {
                        prev[c]
                    } by {
                    if c == ang {
                        assert(span.0 <= d < d + 1 && ((angle + d) % (TAU_I as int)) == c);
                    } else {
                        if exists|e: int|
                            span.0 <= e < d + 1 && #[trigger] ((angle + e) % (TAU_I as int)) == c {
                            let e = choose|e: int|
                                span.0 <= e < d + 1 && #[trigger] ((angle + e) % (TAU_I as int))
                                    == c;
                            assert(e != d);
                        }
                    }
                }
            }
            d = d + 1;
        }
        proof {
            let sub = occluders@.subrange(0, i + 1);
            assert(sub.drop_last() == occluders@.subrange(0, i as int));
            assert(sub.last() == *o);
            assert forall|c: int| 0 <= c < TAU_I implies #[trigger] floors@[c] as int == floor_spec(
                cache,
                *root,
                sub,
                open_i,
                c,
            ) by {
                if covers(cache, dx, dy, c) {
                    let e = choose|e: int|
                        cache.range_at(dx, dy).0 <= e <= cache.range_at(dx, dy).1 && #[trigger] ((
                        cache.angle_at(dx, dy) + e) % (TAU_I as int)) == c;
                    assert(span.0 <= e < d && ((angle + e) % (TAU_I as int)) == c);
                }
            }
        }
        i = i + 1;
    }
    assert(occluders@.subrange(0, occluders@.len() as int) == occluders@);
    floors
}

/// Whether a destination at squared distance `dist_sq`, in bucket `bucket`, lies in front
/// of the shadow floor of its bucket, where it gets the full falloff.
pub fn in_full_light(floors: &Vec<u64>, bucket: usize, dist_sq: u64) -> (r: bool)
    requires
        floors@.len() == TAU_I,
        bucket < TAU_I,
    ensures
        r == (dist_sq <= floors@[bucket as int]),
{
    dist_sq <= floors[bucket]
}

/// One more occluder never raises a shadow floor.
pub proof fn lemma_occluder_lowers_floor(
    cache: &AngularCache,
    root: BoardPosition,
    occ: Seq<BoardPosition>,
    extra: BoardPosition,
    open: int,
    b: int,
)
    ensures
        floor_spec(cache, root, occ.push(extra), open, b) <= floor_spec(cache, root, occ, open, b),
{
    assert(occ.push(extra).drop_last() == occ);
}

/// An occluder that hides a bucket and stands nearer than a destination in that bucket
/// puts the destination behind the floor: it no longer gets the full falloff.
pub proof fn lemma_behind_occluder_in_shadow(
    cache: &AngularCache,
    root: BoardPosition,
    occ: Seq<BoardPosition>,
    open: int,
    i: int,
    b: int,
    dist_sq: int,
)
    requires
        0 <= i < occ.len(),
        covers(cache, occ[i].x - root.x, occ[i].y - root.y, b),
        cache.dist_sq_at(occ[i].x - root.x, occ[i].y - root.y) < dist_sq,
    ensures
        floor_spec(cache, root, occ, open, b) < dist_sq,
    decreases occ.len(),
{
    if i < occ.len() - 1 {
        lemma_behind_occluder_in_shadow(cache, root, occ.drop_last(), open, i, b, dist_sq);
    }
}

} // verus!
