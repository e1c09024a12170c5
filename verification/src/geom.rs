//! Lattice points, sides, orientations and saturating lattice arithmetic.

use vstd::prelude::*;

verus! {

/// A lattice point `(x, y)`; `x` grows east, `y` grows north.
pub type Point = (i32, i32);

/// `v` clamped into the range of `i32` — the value of a saturating `i32`
/// operation whose exact result is `v`.
pub open spec fn sat(v: int) -> int {
    if v < i32::MIN { i32::MIN as int } else if v > i32::MAX { i32::MAX as int } else { v }
}

/// Saturating `i32` addition.
pub fn sat_add(a: i32, b: i32) -> (r: i32)
    ensures
        r == sat(a + b),
{
    let s: i64 = a as i64 + b as i64;
    if s > i32::MAX as i64 {
        i32::MAX
    } else if s < i32::MIN as i64 {
        i32::MIN
    } else {
        s as i32
    }
}

/// Saturating `i32` subtraction.
pub fn sat_sub(a: i32, b: i32) -> (r: i32)
    ensures
        r == sat(a - b),
{
    let s: i64 = a as i64 - b as i64;
    if s > i32::MAX as i64 {
        i32::MAX
    } else if s < i32::MIN as i64 {
        i32::MIN
    } else {
        s as i32
    }
}

/// Saturating `i32` multiplication.
pub fn sat_mul(a: i32, b: i32) -> (r: i32)
    ensures
        r == sat(a * b),
{
    proof {
        assert(-0x8000_0000 <= a < 0x8000_0000 && -0x8000_0000 <= b < 0x8000_0000);
        assert(a * b <= 0x4000_0000_0000_0000 && a * b >= -0x4000_0000_0000_0000) by (nonlinear_arith)
            requires -0x8000_0000 <= a < 0x8000_0000, -0x8000_0000 <= b < 0x8000_0000;
    }
    let s: i64 = a as i64 * b as i64;
    if s > i32::MAX as i64 {
        i32::MAX
    } else if s < i32::MIN as i64 {
        i32::MIN
    } else {
        s as i32
    }
}

/// One of the four cardinal sides of a lattice cell.
#[derive(Clone, Copy, Debug, PartialEq, Eq, Hash, Structural)]
pub enum Side {
    /// `+x`.
    East,
    /// `-x`.
    West,
    /// `+y`.
    North,
    /// `-y`.
    South,
}

/// Every side, in the fixed iteration order the generator relies on.
pub const SIDES: [Side; 4] = [Side::East, Side::West, Side::North, Side::South];

/// The unit step of a side.
pub open spec fn side_delta(s: Side) -> (int, int) {
    match s {
        Side::East => (1, 0),
        Side::West => (-1, 0),
        Side::North => (0, 1),
        Side::South => (0, -1),
    }
}

impl Side {
    /// The unit step `(dx, dy)` from a cell to its neighbor across this side.
    pub fn delta(self) -> (r: (i32, i32))
        ensures
            r.0 == side_delta(self).0,
            r.1 == side_delta(self).1,
    {
        match self {
            Side::East => (1, 0),
            Side::West => (-1, 0),
            Side::North => (0, 1),
            Side::South => (0, -1),
        }
    }
}

/// An axis orientation.
#[derive(Clone, Copy, Debug, PartialEq, Eq, PartialOrd, Ord, Hash, Structural)]
pub enum Orient {
    /// Along `x`.
    Horizontal,
    /// Along `y`.
    Vertical,
}

/// The declared traversal orientation of a track.
#[derive(Clone, Copy, Debug, PartialEq, Eq, Hash, Structural)]
pub enum RaceDir {
    /// Clockwise: the infield lies to the right of travel.
    Cw,
    /// Counter-clockwise: the infield lies to the left of travel.
    Ccw,
}

/// Every race direction, in declaration order.
pub const RACE_DIRS: [RaceDir; 2] = [RaceDir::Cw, RaceDir::Ccw];

/// The point one step from `p` along `(dx, dy)`, each coordinate saturating.
pub open spec fn step_point(p: Point, dx: int, dy: int) -> Point {
    (sat(p.0 + dx) as i32, sat(p.1 + dy) as i32)
}

/// The four 4-neighbors of `p` (east, west, north, south), saturating.
pub open spec fn neighbors4_spec(p: Point) -> Seq<Point> {
    seq![step_point(p, 1, 0), step_point(p, -1, 0), step_point(p, 0, 1), step_point(p, 0, -1)]
}

/// Whether `q` is one of the four (unsaturated) 4-neighbors of `p`.
pub open spec fn adjacent4(p: Point, q: Point) -> bool {
    (p.0 == q.0 && (p.1 - q.1 == 1 || q.1 - p.1 == 1)) || (p.1 == q.1 && (p.0 - q.0 == 1 || q.0 - p.0 == 1))
}

/// The four 4-neighbors of `p`: east, west, north, south, each coordinate
/// saturating at the `i32` bounds.
pub fn neighbors4(p: Point) -> (r: [Point; 4])
    ensures
        r@ == neighbors4_spec(p),
{
    let r = [
        (sat_add(p.0, 1), p.1),
        (sat_sub(p.0, 1), p.1),
        (p.0, sat_add(p.1, 1)),
        (p.0, sat_sub(p.1, 1)),
    ];
    proof {
        assert(r@ =~= neighbors4_spec(p));
    }
    r
}

} // verus!
