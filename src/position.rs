use vstd::prelude::*;

verus! {

/// An integer cell of the 3-D tile grid; the sole index into every field.
#[derive(Clone, Copy, Debug, Default, PartialEq, Eq, Structural, Hash)]
pub struct BoardPosition {
    pub x: i64,
    pub y: i64,
    pub z: i64,
}

/// Side of the square window of offsets `(-w..=w)²` that `xy_neighbors(w)` walks.
pub open spec fn window_side(dist: nat) -> nat {
    2 * dist + 1
}

/// The `i`-th cell of the window of radius `dist` around `p`, row by row along `x`.
pub open spec fn window_cell(p: BoardPosition, dist: nat, i: int) -> BoardPosition {
    let w = window_side(dist) as int;
    BoardPosition { x: (p.x + i / w - dist) as i64, y: (p.y + i % w - dist) as i64, z: p.z }
}

/// Offsets of `p` from `q` fit in the grid's integer type, with `dist` of room on each side.
pub open spec fn has_room(p: BoardPosition, dist: int) -> bool {
    i64::MIN + dist <= p.x <= i64::MAX - dist && i64::MIN + dist <= p.y <= i64::MAX - dist
}

/// Two distinct cells of one z-plane that touch by a side or a corner.
pub open spec fn touches(p: BoardPosition, q: BoardPosition) -> bool {
    &&& p != q
    &&& p.z == q.z
    &&& -1 <= p.x - q.x <= 1
    &&& -1 <= p.y - q.y <= 1
}

impl BoardPosition {
    pub fn new(x: i64, y: i64, z: i64) -> (r: BoardPosition)
        ensures
            r == (BoardPosition { x, y, z }),
    {
        BoardPosition { x, y, z }
    }

    pub fn left(&self) -> (r: BoardPosition)
        requires
            self.x > i64::MIN,
        ensures
            r == (BoardPosition { x: (self.x - 1) as i64, ..*self }),
    {
        BoardPosition { x: self.x - 1, y: self.y, z: self.z }
    }

    pub fn right(&self) -> (r: BoardPosition)
        requires
            self.x < i64::MAX,
        ensures
            r == (BoardPosition { x: (self.x + 1) as i64, ..*self }),
    {
        BoardPosition { x: self.x + 1, y: self.y, z: self.z }
    }

    pub fn top(&self) -> (r: BoardPosition)
        requires
            self.y > i64::MIN,
        ensures
            r == (BoardPosition { y: (self.y - 1) as i64, ..*self }),
    {
        BoardPosition { x: self.x, y: self.y - 1, z: self.z }
    }

    pub fn bottom(&self) -> (r: BoardPosition)
        requires
            self.y < i64::MAX,
        ensures
            r == (BoardPosition { y: (self.y + 1) as i64, ..*self }),
    {
        BoardPosition { x: self.x, y: self.y + 1, z: self.z }
    }

    /// Every cell of the square window of radius `dist` around `self` in its z-plane,
    /// `self` included, `x` offset major and `y` offset minor, both from `-dist` up.
    pub fn xy_neighbors(&self, dist: u32) -> (r: Vec<BoardPosition>)
        requires
            has_room(*self, dist as int),
            window_side(dist as nat) * window_side(dist as nat) <= usize::MAX,
        ensures
            r@.len() == window_side(dist as nat) * window_side(dist as nat),
            forall|i: int| 0 <= i < r@.len() ==> r@[i] == window_cell(*self, dist as nat, i),
    {
        let ghost w: int = window_side(dist as nat) as int;
        let d: i64 = dist as i64;
        let mut ret: Vec<BoardPosition> = Vec::new();
        let mut dx: i64 = -d;
        assert((dx + d) * w == 0) by (nonlinear_arith)
            requires dx + d == 0;
        while dx <= d
            invariant
                w == 2 * d + 1,
                w == window_side(dist as nat),
                d == dist,
                0 <= d <= u32::MAX,
                has_room(*self, d as int),
                w * w <= usize::MAX,
                -d <= dx <= d + 1,
                ret@.len() == (dx + d) * w,
                forall|i: int| 0 <= i < ret@.len() ==> ret@[i] == window_cell(*self, dist as nat, i),
            decreases d + 1 - dx,
        {
            let mut dy: i64 = -d;
            proof {
                assert((dx + d) * w + w <= w * w) by (nonlinear_arith)
                    requires -d <= dx <= d, w == 2 * d + 1;
            }
            while dy <= d
                invariant
                    w == 2 * d + 1,
                    w == window_side(dist as nat),
                    d == dist,
                    0 <= d <= u32::MAX,
                    has_room(*self, d as int),
                    w * w <= usize::MAX,
                    -d <= dx <= d,
                    -d <= dy <= d + 1,
                    (dx + d) * w + w <= w * w,
                    ret@.len() == (dx + d) * w + (dy + d),
                    forall|i: int| 0 <= i < ret@.len() ==> ret@[i] == window_cell(*self, dist as nat, i),
                decreases d + 1 - dy,
            {
                let pos = BoardPosition { x: self.x + dx, y: self.y + dy, z: self.z };
                proof {
                    let k = ret@.len() as int;
                    let a = dx + d;
                    let b = dy + d;
                    assert(k / w == a && k % w == b) by (nonlinear_arith)
                        requires k == a * w + b, 0 <= b < w, 0 <= a;
                    assert(window_side(dist as nat) as int == w);
                    assert(self.x + k / w - dist == self.x + dx);
                    assert(self.y + k % w - dist == self.y + dy);
                    assert(pos == window_cell(*self, dist as nat, k));
                }
                ret.push(pos);
                dy = dy + 1;
            }
            proof {
                assert((dx + d) * w + w == (dx + 1 + d) * w) by (nonlinear_arith);
            }
            dx = dx + 1;
        }
        ret
    }

    /// Squared Euclidean distance to `other`, counted in the x-y plane and along z.
    pub fn distance_sq(&self, other: &BoardPosition) -> (r: u64)
        requires
            -1048576 <= self.x - other.x <= 1048576,
            -1048576 <= self.y - other.y <= 1048576,
            -1048576 <= self.z - other.z <= 1048576,
        ensures
            r == (self.x - other.x) * (self.x - other.x) + (self.y - other.y) * (self.y - other.y)
                + (self.z - other.z) * (self.z - other.z),
    {
        let dx: i64 = self.x - other.x;
        let dy: i64 = self.y - other.y;
        let dz: i64 = self.z - other.z;
        proof {
            assert(dx * dx <= 1048576 * 1048576) by (nonlinear_arith)
                requires -1048576 <= dx <= 1048576;
            assert(dy * dy <= 1048576 * 1048576) by (nonlinear_arith)
                requires -1048576 <= dy <= 1048576;
            assert(dz * dz <= 1048576 * 1048576) by (nonlinear_arith)
                requires -1048576 <= dz <= 1048576;
            assert(dx * dx >= 0 && dy * dy >= 0 && dz * dz >= 0) by (nonlinear_arith);
            assert(1048576 * 1048576 == 1099511627776);
        }
        (dx * dx + dy * dy + dz * dz) as u64
    }
}

} // verus!
