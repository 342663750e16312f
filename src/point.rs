use vstd::prelude::*;

verus! {

/// An integer point in the plane; `+x` points right and `+y` points up.
///
/// Points are ordered by `y` first, then by `x`.
#[derive(Clone, Copy, Debug, Default, PartialEq, Eq, Hash, PartialOrd, Ord, Structural)]
pub struct Point {
    pub y: i32,
    pub x: i32,
}

/// Absolute value of an integer.
pub open spec fn abs(v: int) -> int {
    if v < 0 {
        -v
    } else {
        v
    }
}

/// `true` when `v` fits in an `i32`.
pub open spec fn fits_i32(v: int) -> bool {
    i32::MIN <= v <= i32::MAX
}

impl Point {
    pub fn new(x: i32, y: i32) -> (r: Point)
        ensures
            r.x == x,
            r.y == y,
    {
        Point { y, x }
    }

    /// `|x| + |y|`
    pub fn manhattan(self) -> (r: i64)
        ensures
            r == abs(self.x as int) + abs(self.y as int),
    {
        let x = self.x as i64;
        let y = self.y as i64;
        let ax: i64 = if x < 0 {
            -x
        } else {
            x
        };
        let ay: i64 = if y < 0 {
            -y
        } else {
            y
        };
        ax + ay
    }

    /// Componentwise sum.
    pub fn add(self, other: Point) -> (r: Point)
        requires
            fits_i32(self.x + other.x),
            fits_i32(self.y + other.y),
        ensures
            r.x == self.x + other.x,
            r.y == self.y + other.y,
    {
        Point { y: self.y + other.y, x: self.x + other.x }
    }

    /// Componentwise difference.
    pub fn sub(self, other: Point) -> (r: Point)
        requires
            fits_i32(self.x - other.x),
            fits_i32(self.y - other.y),
        ensures
            r.x == self.x - other.x,
            r.y == self.y - other.y,
    {
        Point { y: self.y - other.y, x: self.x - other.x }
    }

    /// Rotate a quarter turn counter-clockwise about the origin: `(x, y) -> (-y, x)`.
    pub fn rotate_left(self) -> (r: Point)
        requires
            self.y > i32::MIN,
        ensures
            r.x == -self.y,
            r.y == self.x,
    {
        Point { y: self.x, x: -self.y }
    }

    /// Rotate a quarter turn clockwise about the origin: `(x, y) -> (y, -x)`.
    pub fn rotate_right(self) -> (r: Point)
        requires
            self.x > i32::MIN,
        ensures
            r.x == self.y,
            r.y == -self.x,
    {
        Point { y: -self.x, x: self.y }
    }
}

} // verus!
