use vstd::prelude::*;

verus! {

/// Largest magnitude of a coordinate given to `BoundingBox::new`, in voxels.
pub const COORD_LIMIT: i64 = 0x0800_0000_0000_0000;

/// An axis-aligned box. Corners are stored in half-voxel units, so that the
/// center of any box built from whole-voxel corners is exactly representable.
#[derive(Clone, Copy, Debug, PartialEq, Eq)]
pub struct BoundingBox {
    pub min: (i64, i64, i64),
    pub max: (i64, i64, i64),
}

pub open spec fn axis_ok(lo: i64, hi: i64) -> bool {
    &&& -4 * COORD_LIMIT <= lo <= hi <= 4 * COORD_LIMIT
    &&& (hi - lo) % 2 == 0
}

/// Midpoint of `[lo, hi]`.
pub open spec fn mid(lo: i64, hi: i64) -> int {
    (lo + hi) / 2
}

pub open spec fn max3(a: int, b: int, c: int) -> int {
    if a >= b && a >= c {
        a
    } else if b >= c {
        b
    } else {
        c
    }
}

impl BoundingBox {
    /// Whether every corner coordinate lies within `2 * COORD_LIMIT` half-voxel
    /// units of the origin (as for any box made by `new`), so that squaring fits.
    pub open spec fn near_origin(&self) -> bool {
        &&& -2 * COORD_LIMIT <= self.min.0 && self.max.0 <= 2 * COORD_LIMIT
        &&& -2 * COORD_LIMIT <= self.min.1 && self.max.1 <= 2 * COORD_LIMIT
        &&& -2 * COORD_LIMIT <= self.min.2 && self.max.2 <= 2 * COORD_LIMIT
    }

    /// Corners ordered on every axis, within range, with an even extent in
    /// half-voxel units (so the center falls on the half-voxel lattice).
    pub open spec fn wf(&self) -> bool {
        &&& axis_ok(self.min.0, self.max.0)
        &&& axis_ok(self.min.1, self.max.1)
        &&& axis_ok(self.min.2, self.max.2)
    }

    /// Center in half-voxel units.
    pub open spec fn center_spec(&self) -> (int, int, int) {
        (mid(self.min.0, self.max.0), mid(self.min.1, self.max.1), mid(self.min.2, self.max.2))
    }

    /// Longest side in half-voxel units.
    pub open spec fn longest_side(&self) -> int {
        max3(
            self.max.0 - self.min.0,
            self.max.1 - self.min.1,
            self.max.2 - self.min.2,
        )
    }

    /// The box between whole-voxel corners `min` and `max`.
    pub fn new(min: (i64, i64, i64), max: (i64, i64, i64)) -> (r: Self)
        requires
            -COORD_LIMIT <= min.0 <= max.0 <= COORD_LIMIT,
            -COORD_LIMIT <= min.1 <= max.1 <= COORD_LIMIT,
            -COORD_LIMIT <= min.2 <= max.2 <= COORD_LIMIT,
        ensures
            r.wf(),
            r.near_origin(),
            r.min.0 == 2 * min.0 && r.min.1 == 2 * min.1 && r.min.2 == 2 * min.2,
            r.max.0 == 2 * max.0 && r.max.1 == 2 * max.1 && r.max.2 == 2 * max.2,
    {
        BoundingBox { min: (2 * min.0, 2 * min.1, 2 * min.2), max: (2 * max.0, 2 * max.1, 2 * max.2) }
    }

    /// Center of the box, in half-voxel units.
    pub fn center(&self) -> (r: (i64, i64, i64))
        requires
            self.wf(),
        ensures
            (r.0 as int, r.1 as int, r.2 as int) == self.center_spec(),
    {
        (
            self.min.0 + (self.max.0 - self.min.0) / 2,
            self.min.1 + (self.max.1 - self.min.1) / 2,
            self.min.2 + (self.max.2 - self.min.2) / 2,
        )
    }

    /// Turns the box into a cube whose side is the box's longest side,
    /// keeping the center where it was.
    pub fn square(&mut self)
        requires
            old(self).wf(),
            old(self).near_origin(),
        ensures
            final(self).wf(),
            final(self).center_spec() == old(self).center_spec(),
            final(self).max.0 - final(self).min.0 == old(self).longest_side(),
            final(self).max.1 - final(self).min.1 == old(self).longest_side(),
            final(self).max.2 - final(self).min.2 == old(self).longest_side(),
    {
        let c = self.center();
        let mut longest = self.max.0 - self.min.0;
        if self.max.1 - self.min.1 > longest {
            longest = self.max.1 - self.min.1;
        }
        if self.max.2 - self.min.2 > longest {
            longest = self.max.2 - self.min.2;
        }
        let half = longest / 2;
        self.min = (c.0 - half, c.1 - half, c.2 - half);
        self.max = (c.0 + half, c.1 + half, c.2 + half);
    }
}

} // verus!
