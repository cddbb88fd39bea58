use vstd::prelude::*;

use crate::position::BoardPosition;

verus! {

/// Number of cells along one axis of the box `lo..=hi`: none when `hi < lo`.
pub open spec fn extent(lo: int, hi: int) -> int {
    if hi < lo {
        0
    } else {
        hi - lo + 1
    }
}

/// A dense 3-D grid over a box of cells; each cell holds a value or nothing.
#[derive(Clone, Debug)]
pub struct LightFieldSector<T> {
    field: Vec<Option<T>>,
    min_x: i64,
    min_y: i64,
    min_z: i64,
    sz_x: usize,
    sz_y: usize,
    sz_z: usize,
}

impl<T> LightFieldSector<T> {
    /// Lowest corner of the box.
    pub closed spec fn lo(&self) -> (int, int, int) {
        (self.min_x as int, self.min_y as int, self.min_z as int)
    }

    /// Cells along each axis of the box.
    pub closed spec fn size(&self) -> (int, int, int) {
        (self.sz_x as int, self.sz_y as int, self.sz_z as int)
    }

    /// The grid's internal layout is consistent: one slot per cell of the box.
    pub closed spec fn wf(&self) -> bool {
        &&& self.field@.len() == self.sz_x * self.sz_y * self.sz_z
        &&& self.min_x + self.sz_x <= i64::MAX + 1
        &&& self.min_y + self.sz_y <= i64::MAX + 1
        &&& self.min_z + self.sz_z <= i64::MAX + 1
    }

    pub open spec fn in_box(&self, x: int, y: int, z: int) -> bool {
        &&& self.lo().0 <= x < self.lo().0 + self.size().0
        &&& self.lo().1 <= y < self.lo().1 + self.size().1
        &&& self.lo().2 <= z < self.lo().2 + self.size().2
    }

    closed spec fn flat(&self, x: int, y: int, z: int) -> int {
        ((x - self.min_x) * self.sz_y + (y - self.min_y)) * self.sz_z + (z - self.min_z)
    }

    /// What the cell `(x, y, z)` holds: nothing outside the box.
    pub closed spec fn cell(&self, x: int, y: int, z: int) -> Option<T> {
        if self.in_box(x, y, z) {
            self.field@[self.flat(x, y, z)]
        } else {
            None
        }
    }

    proof fn lemma_flat(&self, x: int, y: int, z: int)
        requires
            self.wf(),
            self.in_box(x, y, z),
        ensures
            0 <= self.flat(x, y, z) < self.field@.len(),
            forall|a: int, b: int, c: int|
                self.in_box(a, b, c) && self.flat(a, b, c) == self.flat(x, y, z) ==> a == x && b
                    == y && c == z,
    {
        let sy = self.sz_y as int;
        let sz = self.sz_z as int;
        let sx = self.sz_x as int;
        let i = x - self.min_x;
        let j = y - self.min_y;
        let k = z - self.min_z;
        assert(0 <= (i * sy + j) * sz + k < sx * sy * sz) by (nonlinear_arith)
            requires 0 <= i < sx, 0 <= j < sy, 0 <= k < sz;
        assert forall|a: int, b: int, c: int|
            self.in_box(a, b, c) && self.flat(a, b, c) == self.flat(x, y, z) implies a == x && b
                == y && c == z by {
            let i2 = a - self.min_x;
            let j2 = b - self.min_y;
            let k2 = c - self.min_z;
            assert(i2 == i && j2 == j && k2 == k) by (nonlinear_arith)
                requires
                    0 <= i < sx, 0 <= j < sy, 0 <= k < sz,
                    0 <= i2 < sx, 0 <= j2 < sy, 0 <= k2 < sz,
                    (i * sy + j) * sz + k == (i2 * sy + j2) * sz + k2;
        }
    }

    /// An empty grid over the box from `(min_x, min_y, min_z)` to `(max_x, max_y, max_z)`,
    /// both corners included; an axis with `max < min` has no cells.
    pub fn new(min_x: i64, min_y: i64, min_z: i64, max_x: i64, max_y: i64, max_z: i64) -> (r:
        LightFieldSector<T>)
        requires
            extent(min_x as int, max_x as int) * extent(min_y as int, max_y as int) * extent(
                min_z as int,
                max_z as int,
            ) <= usize::MAX,
            extent(min_x as int, max_x as int) <= usize::MAX,
            extent(min_y as int, max_y as int) <= usize::MAX,
            extent(min_z as int, max_z as int) <= usize::MAX,
        ensures
            r.wf(),
            r.lo() == (min_x as int, min_y as int, min_z as int),
            r.size() == (extent(min_x as int, max_x as int), extent(min_y as int, max_y as int),
            extent(min_z as int, max_z as int)),
            forall|x: int, y: int, z: int| r.cell(x, y, z) is None,
    {
        let sz_x: usize = if max_x < min_x { 0 } else { (max_x as i128 - min_x as i128 + 1) as usize };
        let sz_y: usize = if max_y < min_y { 0 } else { (max_y as i128 - min_y as i128 + 1) as usize };
        let sz_z: usize = if max_z < min_z { 0 } else { (max_z as i128 - min_z as i128 + 1) as usize };
        let n: usize = if sz_z == 0 {
            0
        } else {
            assert(sz_x * sz_y <= usize::MAX) by (nonlinear_arith)
                requires sz_x * sz_y * sz_z <= usize::MAX, sz_z >= 1, sz_x >= 0, sz_y >= 0;
            sz_x * sz_y * sz_z
        };
        assert(n == sz_x * sz_y * sz_z) by (nonlinear_arith)
            requires sz_z == 0 ==> n == 0, sz_z != 0 ==> n == sz_x * sz_y * sz_z;
        let mut field: Vec<Option<T>> = Vec::new();
        let mut i: usize = 0;
        while i < n
            invariant
                i <= n,
                field@.len() == i,
                forall|j: int| 0 <= j < i ==> field@[j] is None,
            decreases n - i,
        {
            field.push(None);
            i = i + 1;
        }
        let r = LightFieldSector { field, min_x, min_y, min_z, sz_x, sz_y, sz_z };
        assert forall|x: int, y: int, z: int| r.cell(x, y, z) is None by {
            if r.in_box(x, y, z) {
                r.lemma_flat(x, y, z);
            }
        }
        r
    }

    /// A grid over the box of `size` cells from the corner `lo`, every cell holding `v`.
    pub fn filled(lo: (i64, i64, i64), size: (usize, usize, usize), v: T) -> (r: LightFieldSector<T>)
        where
            T: Copy,
        requires
            size.0 * size.1 * size.2 <= usize::MAX,
            lo.0 + size.0 <= i64::MAX + 1,
            lo.1 + size.1 <= i64::MAX + 1,
            lo.2 + size.2 <= i64::MAX + 1,
        ensures
            r.wf(),
            r.lo() == (lo.0 as int, lo.1 as int, lo.2 as int),
            r.size() == (size.0 as int, size.1 as int, size.2 as int),
            forall|x: int, y: int, z: int|
                #![trigger r.cell(x, y, z)]
                r.cell(x, y, z) == if r.in_box(x, y, z) {
                    Some(v)
                } else {
                    None
                },
    {
        let n: usize = if size.2 == 0 {
            0
        } else {
            assert(size.0 * size.1 <= usize::MAX) by (nonlinear_arith)
                requires size.0 * size.1 * size.2 <= usize::MAX, size.2 >= 1;
            size.0 * size.1 * size.2
        };
        assert(n == size.0 * size.1 * size.2) by (nonlinear_arith)
            requires size.2 == 0 ==> n == 0, size.2 != 0 ==> n == size.0 * size.1 * size.2;
        let mut field: Vec<Option<T>> = Vec::new();
        let mut i: usize = 0;
        while i < n
            invariant
                i <= n,
                field@.len() == i,
                forall|j: int| 0 <= j < i ==> field@[j] == Some(v),
            decreases n - i,
        {
            field.push(Some(v));
            i = i + 1;
        }
        let r = LightFieldSector {
            field,
            min_x: lo.0,
            min_y: lo.1,
            min_z: lo.2,
            sz_x: size.0,
            sz_y: size.1,
            sz_z: size.2,
        };
        assert forall|x: int, y: int, z: int|
            #![trigger r.cell(x, y, z)]
            r.cell(x, y, z) == if r.in_box(x, y, z) {
                Some(v)
            } else {
                None
            } by {
            if r.in_box(x, y, z) {
                r.lemma_flat(x, y, z);
            }
        }
        r
    }

    /// Lowest corner of the box.
    pub fn corner(&self) -> (r: (i64, i64, i64))
        ensures
            (r.0 as int, r.1 as int, r.2 as int) == self.lo(),
    {
        (self.min_x, self.min_y, self.min_z)
    }

    /// Cells along each axis of the box.
    pub fn dims(&self) -> (r: (usize, usize, usize))
        requires
            self.wf(),
        ensures
            (r.0 as int, r.1 as int, r.2 as int) == self.size(),
            r.0 * r.1 * r.2 <= usize::MAX,
            self.lo().0 + r.0 <= i64::MAX + 1,
            self.lo().1 + r.1 <= i64::MAX + 1,
            self.lo().2 + r.2 <= i64::MAX + 1,
    {
        // The number of slots bounds the product of the sides.
        let _slots: usize = self.field.len();
        (self.sz_x, self.sz_y, self.sz_z)
    }

    /// The slot of the cell `(x, y, z)`, or `None` outside the box.
    fn vec_coord(&self, x: i64, y: i64, z: i64) -> (r: Option<usize>)
        requires
            self.wf(),
        ensures
            r is Some <==> self.in_box(x as int, y as int, z as int),
            r matches Some(i) ==> i == self.flat(x as int, y as int, z as int) && i
                < self.field@.len(),
    {
        let i: i128 = x as i128 - self.min_x as i128;
        let j: i128 = y as i128 - self.min_y as i128;
        let k: i128 = z as i128 - self.min_z as i128;
        if i < 0 || j < 0 || k < 0 {
            return None;
        }
        if i >= self.sz_x as i128 || j >= self.sz_y as i128 || k >= self.sz_z as i128 {
            return None;
        }
        let len: usize = self.field.len();
        proof {
            self.lemma_flat(x as int, y as int, z as int);
            let sy = self.sz_y as int;
            let sz = self.sz_z as int;
            assert(i * sy + j <= i * sy + j) by (nonlinear_arith);
            assert(0 <= i * sy + j && i * sy + j < usize::MAX && (i * sy + j) * sz + k < usize::MAX) by (nonlinear_arith)
                requires
                    0 <= i, 0 <= j < sy, 0 <= k < sz,
                    (i * sy + j) * sz + k < self.field@.len(), len == self.field@.len(),
                    sz > 0;
        }
        let row: usize = (i as usize) * self.sz_y + (j as usize);
        Some(row * self.sz_z + (k as usize))
    }

    /// What the cell `(x, y, z)` holds.
    pub fn get(&self, x: i64, y: i64, z: i64) -> (r: Option<&T>)
        requires
            self.wf(),
        ensures
            r is Some <==> self.cell(x as int, y as int, z as int) is Some,
            r matches Some(v) ==> self.cell(x as int, y as int, z as int) == Some(*v),
    {
        match self.vec_coord(x, y, z) {
            Some(i) => match &self.field[i] {
                Some(v) => Some(v),
                None => None,
            },
            None => None,
        }
    }

    pub fn get_pos(&self, p: &BoardPosition) -> (r: Option<&T>)
        requires
            self.wf(),
        ensures
            r is Some <==> self.cell(p.x as int, p.y as int, p.z as int) is Some,
            r matches Some(v) ==> self.cell(p.x as int, p.y as int, p.z as int) == Some(*v),
    {
        self.get(p.x, p.y, p.z)
    }

    pub fn is_some(&self, x: i64, y: i64, z: i64) -> (r: bool)
        requires
            self.wf(),
        ensures
            r == self.cell(x as int, y as int, z as int) is Some,
    {
        match self.vec_coord(x, y, z) {
            Some(i) => self.field[i].is_some(),
            None => false,
        }
    }

    pub fn is_none(&self, x: i64, y: i64, z: i64) -> (r: bool)
        requires
            self.wf(),
        ensures
            r == self.cell(x as int, y as int, z as int) is None,
    {
        !self.is_some(x, y, z)
    }

    /// Stores `v` in the cell `(x, y, z)`; outside the box nothing changes.
    pub fn insert(&mut self, x: i64, y: i64, z: i64, v: T)
        requires
            old(self).wf(),
        ensures
            final(self).wf(),
            final(self).lo() == old(self).lo(),
            final(self).size() == old(self).size(),
            forall|a: int, b: int, c: int|
                #![trigger final(self).cell(a, b, c)]
                if a == x && b == y && c == z && old(self).in_box(a, b, c) {
                    final(self).cell(a, b, c) == Some(v)
                } else {
                    final(self).cell(a, b, c) == old(self).cell(a, b, c)
                },
    {
        match self.vec_coord(x, y, z) {
            Some(i) => {
                let ghost pre = *self;
                proof {
                    self.lemma_flat(x as int, y as int, z as int);
                }
                self.field.set(i, Some(v));
                assert forall|a: int, b: int, c: int| pre.in_box(a, b, c) implies 0 <= pre.flat(a, b, c) < pre.field@.len() && (pre.flat(a, b, c) == i ==> a == x && b == y && c == z) by {
                    pre.lemma_flat(a, b, c);
                }
            },
            None => {},
        }
    }
}

} // verus!
