//! The coordinate map: bidirectional translation between 2D grid coordinates
//! and row-major linear offsets, with bounds validation.

use vstd::arithmetic::div_mod::{
    lemma_fundamental_div_mod, lemma_fundamental_div_mod_converse,
    lemma_mod_division_less_than_divisor,
};
use vstd::prelude::*;

verus! {

/// The engine's two failure kinds. Both mark caller bugs, never recoverable
/// conditions inside the simulation.
#[derive(Debug, Clone, Copy, PartialEq, Eq, Structural)]
pub enum WorldError {
    /// A coordinate or linear offset lies outside the grid bounds.
    OutOfRange,
    /// An emitting tile has no in-bounds, accepting neighbor to route to.
    DegenerateNeighborhood,
}

/// Fixed grid dimensions, captured at construction and immutable afterwards.
#[derive(Debug, Clone, Copy, PartialEq, Eq, Structural)]
pub struct Dim {
    pub width: usize,
    pub height: usize,
}

impl Dim {
    /// Dimensions small enough that every derived quantity (linear offsets
    /// and the percentage arithmetic of the replenishment sample) fits in
    /// `usize`.
    pub open spec fn wf(self) -> bool {
        self.width * self.height * 100 <= usize::MAX
    }

    /// Whether `(x, y)` lies on the grid.
    pub open spec fn in_bounds(self, x: int, y: int) -> bool {
        0 <= x < self.width && 0 <= y < self.height
    }

    /// The row-major linear offset of coordinates `(x, y)`.
    pub open spec fn offset_of(self, x: int, y: int) -> int {
        x + y * self.width
    }

    /// Number of grid positions.
    pub open spec fn area(self) -> int {
        self.width * self.height
    }

    /// The column a linear offset addresses.
    pub open spec fn x_of(self, off: int) -> int {
        off % self.width as int
    }

    /// The row a linear offset addresses.
    pub open spec fn y_of(self, off: int) -> int {
        off / self.width as int
    }

    /// Maps coordinates to their row-major linear offset; `OutOfRange` if
    /// and only if a coordinate is outside the grid.
    pub fn xy_offset(&self, x: usize, y: usize) -> (r: Result<usize, WorldError>)
        requires
            self.wf(),
        ensures
            match r {
                Ok(off) => self.in_bounds(x as int, y as int) && off == self.offset_of(
                    x as int,
                    y as int,
                ) && off < self.area(),
                Err(e) => !self.in_bounds(x as int, y as int) && e == WorldError::OutOfRange,
            },
    {
        if x < self.width && y < self.height {
            proof {
                assert(x + y * self.width < self.width * self.height && y * self.width
                    >= 0) by (nonlinear_arith)
                    requires
                        x < self.width,
                        y < self.height,
                ;
            }
            Ok(x + y * self.width)
        } else {
            Err(WorldError::OutOfRange)
        }
    }

    /// Maps a linear offset back to its coordinates; `OutOfRange` if and
    /// only if the offset is at or beyond the grid's area.
    pub fn offset_xy(&self, offset: usize) -> (r: Result<(usize, usize), WorldError>)
        requires
            self.wf(),
        ensures
            match r {
                Ok(p) => offset < self.area() && self.in_bounds(p.0 as int, p.1 as int)
                    && self.offset_of(p.0 as int, p.1 as int) == offset && p.0 == self.x_of(
                    offset as int,
                ) && p.1 == self.y_of(offset as int),
                Err(e) => offset >= self.area() && e == WorldError::OutOfRange,
            },
    {
        if offset < self.width * self.height {
            proof {
                assert(self.width > 0) by (nonlinear_arith)
                    requires
                        offset < self.width * self.height,
                ;
            }
            let x = offset % self.width;
            let y = offset / self.width;
            proof {
                let o = offset as int;
                let w = self.width as int;
                let h = self.height as int;
                lemma_mod_division_less_than_divisor(o, w);
                lemma_fundamental_div_mod(o, w);
                assert(o / w < h) by (nonlinear_arith)
                    requires
                        o < w * h,
                        w > 0,
                        o >= 0,
                ;
                assert(x as int == o % w);
                assert(y as int == o / w);
                assert(o == w * (o / w) + o % w);
                assert(x + y * self.width == offset);
            }
            Ok((x, y))
        } else {
            Err(WorldError::OutOfRange)
        }
    }
}

/// Round-trip law of the coordinate map: for every in-bounds coordinate
/// pair, mapping to a linear offset and back yields the same pair, and the
/// offset taken apart by the row width recovers exactly `x` and `y`.
pub proof fn lemma_coords_round_trip(dim: Dim, x: int, y: int)
    requires
        dim.wf(),
        dim.in_bounds(x, y),
    ensures
        dim.offset_of(x, y) % dim.width as int == x,
        dim.offset_of(x, y) / dim.width as int == y,
        0 <= dim.offset_of(x, y) < dim.area(),
{
    lemma_fundamental_div_mod_converse(x + y * dim.width, dim.width as int, y, x);
    assert(x + y * dim.width < dim.width * dim.height && y * dim.width >= 0) by (nonlinear_arith)
        requires
            0 <= x < dim.width,
            0 <= y < dim.height,
    ;
}

} // verus!
