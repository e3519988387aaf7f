//! The minimal axis-aligned rectangle enclosing a set of coordinates.

use vstd::prelude::*;

verus! {

/// Minimal axis-aligned rectangle of occupied coordinates, bounds inclusive.
#[derive(Clone, Copy, Debug, PartialEq, Eq, Structural)]
pub struct BoundingBox {
    pub i_min: i8,
    pub j_min: i8,
    pub i_max: i8,
    pub j_max: i8,
}

impl BoundingBox {
    /// A box is ordered when each minimum is at most its maximum.
    pub open spec fn ordered(self) -> bool {
        self.i_min <= self.i_max && self.j_min <= self.j_max
    }

    /// Seeds a zero-size box around one coordinate.
    pub fn singleton(i: i8, j: i8) -> (r: BoundingBox)
        ensures
            r == (BoundingBox { i_min: i, j_min: j, i_max: i, j_max: j }),
    {
        BoundingBox { i_min: i, j_min: j, i_max: i, j_max: j }
    }

    /// Extends the box so that it also encloses `(i, j)`.
    pub fn update(&mut self, i: i8, j: i8)
        ensures
            final (self).i_min == if i < old(self).i_min {
                i
            } else {
                old(self).i_min
            },
            final (self).i_max == if i > old(self).i_max {
                i
            } else {
                old(self).i_max
            },
            final (self).j_min == if j < old(self).j_min {
                j
            } else {
                old(self).j_min
            },
            final (self).j_max == if j > old(self).j_max {
                j
            } else {
                old(self).j_max
            },
    {
        if i < self.i_min {
            self.i_min = i;
        }
        if i > self.i_max {
            self.i_max = i;
        }
        if j < self.j_min {
            self.j_min = j;
        }
        if j > self.j_max {
            self.j_max = j;
        }
    }

    /// The number of rows the box spans, inclusive.
    pub fn size_i(&self) -> (r: u16)
        requires
            self.ordered(),
        ensures
            r == self.i_max - self.i_min + 1,
    {
        (self.i_max as i16 - self.i_min as i16 + 1) as u16
    }

    /// The number of columns the box spans, inclusive.
    pub fn size_j(&self) -> (r: u16)
        requires
            self.ordered(),
        ensures
            r == self.j_max - self.j_min + 1,
    {
        (self.j_max as i16 - self.j_min as i16 + 1) as u16
    }
}

} // verus!
