//! Planar points with whole-pixel coordinates.
//!
//! A candidate crop center is a point in a coordinate system whose origin is
//! the center of the sampling disc. Coordinates may be negative until the
//! point has been translated onto an image. All geometric reasoning uses the
//! squared Euclidean distance, which compares exactly like the distance
//! itself and stays within integer arithmetic.

use vstd::prelude::*;

verus! {

/// Largest coordinate magnitude the geometry works with. Image dimensions
/// fit in `u32`, and every translation adds at most half an image dimension,
/// so coordinates stay well inside this bound; it in turn keeps squared
/// distances inside `i128`.
pub const COORD_LIMIT: i64 = 4294967296;

/// An immutable 2-D pixel coordinate, possibly negative.
#[derive(Copy, Clone, Debug, PartialEq, Eq, Structural)]
pub struct Point {
    pub x: i64,
    pub y: i64,
}

impl Point {
    /// Both coordinate magnitudes are within `COORD_LIMIT`.
    pub open spec fn bounded(self) -> bool {
        -COORD_LIMIT <= self.x <= COORD_LIMIT && -COORD_LIMIT <= self.y <= COORD_LIMIT
    }

    /// Squared Euclidean distance between two points.
    pub open spec fn dist_sq(self, other: Point) -> int {
        (self.x - other.x) * (self.x - other.x) + (self.y - other.y) * (self.y - other.y)
    }

    pub fn new(x: i64, y: i64) -> (r: Point)
        ensures
            r == (Point { x, y }),
    {
        Point { x, y }
    }

    pub fn zero() -> (r: Point)
        ensures
            r == (Point { x: 0, y: 0 }),
    {
        Point { x: 0, y: 0 }
    }

    pub fn get_x(&self) -> (r: i64)
        ensures
            r == self.x,
    {
        self.x
    }

    pub fn get_y(&self) -> (r: i64)
        ensures
            r == self.y,
    {
        self.y
    }

    /// Vector addition: shifts `self` by `offset`.
    pub fn translate(self, offset: Point) -> (r: Point)
        requires
            self.bounded(),
            offset.bounded(),
        ensures
            r.x == self.x + offset.x,
            r.y == self.y + offset.y,
    {
        Point { x: self.x + offset.x, y: self.y + offset.y }
    }

    /// Squared distance to `other`, exact.
    pub fn distance_sq(&self, other: &Point) -> (r: i128)
        requires
            self.bounded(),
            other.bounded(),
        ensures
            r == self.dist_sq(*other),
            r >= 0,
    {
        let dx: i128 = self.x as i128 - other.x as i128;
        let dy: i128 = self.y as i128 - other.y as i128;
        proof {
            assert(dx * dx + dy * dy == self.dist_sq(*other)) by (nonlinear_arith)
                requires
                    dx == self.x - other.x,
                    dy == self.y - other.y,
            ;
            assert(0 <= dx * dx < i128::MAX / 2 && 0 <= dy * dy < i128::MAX / 2)
                by (nonlinear_arith)
                requires
                    -2 * COORD_LIMIT <= dx <= 2 * COORD_LIMIT,
                    -2 * COORD_LIMIT <= dy <= 2 * COORD_LIMIT,
            ;
        }
        dx * dx + dy * dy
    }

    /// Conversion to unsigned pixel coordinates. A point with a negative
    /// component (or one beyond `u32` range) has no pixel position.
    pub fn to_uint(self) -> (r: Option<(u32, u32)>)
        ensures
            r is Some <==> (0 <= self.x <= u32::MAX && 0 <= self.y <= u32::MAX),
            r is Some ==> r->0 == (self.x as u32, self.y as u32),
    {
        if self.x < 0 || self.y < 0 || self.x > u32::MAX as i64 || self.y > u32::MAX as i64 {
            None
        } else {
            Some((self.x as u32, self.y as u32))
        }
    }
}

} // verus!
