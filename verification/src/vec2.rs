//! Two-dimensional fixed-point vectors: the positions, headings and
//! steering contributions of the simulation.
use vstd::prelude::*;
use crate::fixed::abs_s;

verus! {

/// Bound under which all component arithmetic in this module stays
/// exact in `i64`.
pub const COORD_LIMIT: i64 = 2_000_000_000;

/// A plane vector with fixed-point components (thousandths of a world
/// unit).
#[derive(Clone, Copy, PartialEq, Eq, Structural, Debug)]
pub struct Vec2F {
    pub x: i64,
    pub y: i64,
}

impl Vec2F {
    /// Squared Euclidean magnitude, in squared fixed-point steps.
    pub open spec fn mag_sq_s(self) -> int {
        self.x * self.x + self.y * self.y
    }

    /// Both components bounded by `b` in absolute value.
    pub open spec fn bounded(self, b: int) -> bool {
        abs_s(self.x as int) <= b && abs_s(self.y as int) <= b
    }

    pub fn new(x: i64, y: i64) -> (v: Vec2F)
        ensures
            v.x == x,
            v.y == y,
    {
        Vec2F { x, y }
    }

    /// Componentwise sum.
    pub fn add(self, other: Vec2F) -> (r: Vec2F)
        requires
            self.bounded(COORD_LIMIT as int),
            other.bounded(COORD_LIMIT as int),
        ensures
            r.x == self.x + other.x,
            r.y == self.y + other.y,
    {
        Vec2F { x: self.x + other.x, y: self.y + other.y }
    }

    /// Componentwise difference.
    pub fn sub(self, other: Vec2F) -> (r: Vec2F)
        requires
            self.bounded(COORD_LIMIT as int),
            other.bounded(COORD_LIMIT as int),
        ensures
            r.x == self.x - other.x,
            r.y == self.y - other.y,
    {
        Vec2F { x: self.x - other.x, y: self.y - other.y }
    }

    /// Squared magnitude.
    pub fn mag_sq(self) -> (d: i64)
        requires
            self.bounded(COORD_LIMIT as int),
        ensures
            d == self.mag_sq_s(),
    {
        proof {
            assert(self.x * self.x + self.y * self.y <= 2 * (COORD_LIMIT as int) * (
            COORD_LIMIT as int) && self.x * self.x >= 0 && self.y * self.y >= 0)
                by (nonlinear_arith)
                requires
                    self.bounded(COORD_LIMIT as int),
            ;
        }
        self.x * self.x + self.y * self.y
    }
}

} // verus!
