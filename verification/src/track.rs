//! Ф3 — the start/finish line, its timing gate and the start grid, and the
//! local-forward convention every later consumer orients by.

use vstd::prelude::*;
use crate::corridor::Corridor;
use crate::geom::{side_delta, Orient, Point, RaceDir, Side};
use crate::skeleton::CoarseSkeleton;

verus! {

/// The timing gate of a start/finish line: the cells just behind the line
/// and the side a car crosses it towards.
pub struct TimingGate {
    /// The cells just behind the line.
    pub behind: Vec<Point>,
    /// The local-forward side across the line.
    pub forward: Side,
}

/// The start/finish line: its chord of cells across the corridor, the
/// chord's orientation, and its timing gate.
pub struct StartFinish {
    /// The cells of the line, across the corridor.
    pub chord: Vec<Point>,
    /// The chord's own orientation.
    pub orient: Orient,
    /// The line's timing gate.
    pub gate: TimingGate,
}

/// The start grid: one position per car.
pub struct StartGrid {
    /// The cars' starting cells.
    pub positions: Vec<Point>,
}

impl Default for StartGrid {
    fn default() -> (r: Self)
        ensures
            r.positions@.len() == 0,
    {
        StartGrid { positions: Vec::new() }
    }
}

/// The Ф3 output: the (possibly thickened) corridor, the start/finish and
/// the start grid.
pub struct Phase3Output {
    /// The corridor.
    pub d: Corridor,
    /// The start/finish line and its timing gate.
    pub sf: StartFinish,
    /// The start grid.
    pub grid: StartGrid,
}

/// A coarse straight-run segment of the ring.
#[derive(Clone, Copy, PartialEq, Eq, Debug)]
pub struct Segment {
    /// The along-segment travel axis.
    pub axis: Orient,
    /// The inward normal — the side from the ring toward the hole.
    pub inward: Side,
    /// The fixed perpendicular coarse coordinate of the run.
    pub fixed_coord: i32,
    /// The along-axis coarse run range, inclusive.
    pub run: (i32, i32),
}

/// The travel axis of a straight whose inward normal is `inward`:
/// perpendicular to it.
pub open spec fn axis_of(inward: Side) -> Orient {
    match inward {
        Side::North | Side::South => Orient::Horizontal,
        Side::East | Side::West => Orient::Vertical,
    }
}

/// The along-segment travel axis for a ring cell whose inward normal is
/// `inward` — perpendicular to `inward`.
pub fn axis_for_inward(inward: Side) -> (r: Orient)
    ensures
        r == axis_of(inward),
{
    match inward {
        Side::North | Side::South => Orient::Horizontal,
        Side::East | Side::West => Orient::Vertical,
    }
}

/// The orientation perpendicular to `o`.
pub open spec fn perp(o: Orient) -> Orient {
    match o {
        Orient::Horizontal => Orient::Vertical,
        Orient::Vertical => Orient::Horizontal,
    }
}

/// The orientation perpendicular to `o`.
pub fn perp_orient(o: Orient) -> (r: Orient)
    ensures
        r == perp(o),
{
    match o {
        Orient::Horizontal => Orient::Vertical,
        Orient::Vertical => Orient::Horizontal,
    }
}

/// The side opposite `s`.
pub open spec fn opposite(s: Side) -> Side {
    match s {
        Side::East => Side::West,
        Side::West => Side::East,
        Side::North => Side::South,
        Side::South => Side::North,
    }
}

/// The side opposite `s`.
pub fn opposite_side(s: Side) -> (r: Side)
    ensures
        r == opposite(s),
        side_delta(r).0 == -side_delta(s).0 && side_delta(r).1 == -side_delta(s).1,
{
    match s {
        Side::East => Side::West,
        Side::West => Side::East,
        Side::North => Side::South,
        Side::South => Side::North,
    }
}

/// The side whose delta is `(dx, dy)`, or `East` for a non-unit delta.
pub open spec fn side_of_delta(dx: int, dy: int) -> Side {
    if dx == -1 && dy == 0 {
        Side::West
    } else if dx == 0 && dy == 1 {
        Side::North
    } else if dx == 0 && dy == -1 {
        Side::South
    } else {
        Side::East
    }
}

/// The side whose delta equals `(dx, dy)`; total: an out-of-domain
/// (non-unit) delta falls back to `East`.
pub fn side_from_unit_delta(dx: i32, dy: i32) -> (r: Side)
    ensures
        r == side_of_delta(dx as int, dy as int),
{
    if dx == -1 && dy == 0 {
        Side::West
    } else if dx == 0 && dy == 1 {
        Side::North
    } else if dx == 0 && dy == -1 {
        Side::South
    } else {
        Side::East
    }
}

/// The forward delta for `dir` on a straight with inward normal delta
/// `(ix, iy)`: `(iy, -ix)` counter-clockwise (interior on the left of
/// travel), `(-iy, ix)` clockwise (interior on the right).
pub open spec fn forward_delta(dir: RaceDir, ix: int, iy: int) -> (int, int) {
    match dir {
        RaceDir::Ccw => (iy, -ix),
        RaceDir::Cw => (-iy, ix),
    }
}

/// The local-forward side a `dir`-traversing car heads along a straight
/// whose inward normal (toward the hole) is `inward`. This projection is
/// the codebase's definition of "forward": counter-clockwise turns the
/// inward normal a quarter clockwise, clockwise a quarter counter-clockwise.
pub fn forward_side(dir: RaceDir, inward: Side) -> (r: Side)
    ensures
        side_delta(r) == forward_delta(dir, side_delta(inward).0, side_delta(inward).1),
{
    let (ix, iy) = inward.delta();
    let (fx, fy) = match dir {
        RaceDir::Ccw => (iy, 0i32 - ix),
        RaceDir::Cw => (0i32 - iy, ix),
    };
    side_from_unit_delta(fx, fy)
}

/// The number of cars the start/finish seats abreast for `m` cars: `m`,
/// and at least one.
pub open spec fn chord_len(m: u32) -> int {
    if m == 0 {
        1
    } else {
        m as int
    }
}

/// The start/finish's anchor in `d`: the least drivable cell (the lowest
/// of the leftmost column holding any), on the corridor's western outer
/// wall, or the box's origin when no cell is drivable.
pub open spec fn sf_anchor(d: &Corridor, a: Point) -> bool {
    if exists|q: Point| #[trigger] d.has(q) {
        d.has(a) && forall|q: Point| #[trigger] d.has(q) ==> a.0 < q.0 || (a.0 == q.0 && a.1 <= q.1)
    } else {
        a.0 == d.ox() && a.1 == d.oy()
    }
}

/// The cell `i` steps outward (west) of the anchor `a`, `back` rows behind
/// the line when forward is `(0, fy)`.
pub open spec fn sf_cell(a: Point, i: int, back: int, fy: int) -> Point {
    ((a.0 - i) as i32, (a.1 - back * fy) as i32)
}

/// The start/finish cells of the first `n` cars: on the line, one row
/// back (the timing gate), and two rows back (the start grid).
pub open spec fn sf_cells(a: Point, n: int, fy: int, q: Point) -> bool {
    exists|k: int| 0 <= k < n && (q == #[trigger] sf_cell(a, k, 0, fy) || q == sf_cell(a, k, 1, fy) || q == sf_cell(a, k, 2, fy))
}

/// The first `n + 1` cars' cells are the first `n` cars' and car `n`'s.
proof fn lemma_sf_cells_step(a: Point, n: int, fy: int, q: Point)
    requires
        n >= 0,
    ensures
        sf_cells(a, n + 1, fy, q) <==> sf_cells(a, n, fy, q) || q == sf_cell(a, n, 0, fy) || q == sf_cell(a, n, 1, fy) || q
            == sf_cell(a, n, 2, fy),
{
    if sf_cells(a, n + 1, fy, q) {
        let k = choose|k: int|
            0 <= k < n + 1 && (q == #[trigger] sf_cell(a, k, 0, fy) || q == sf_cell(a, k, 1, fy) || q == sf_cell(a, k, 2, fy));
        if k < n {
            assert(sf_cell(a, k, 0, fy) == sf_cell(a, k, 0, fy));
        }
    }
    if sf_cells(a, n, fy, q) {
        let k = choose|k: int|
            0 <= k < n && (q == #[trigger] sf_cell(a, k, 0, fy) || q == sf_cell(a, k, 1, fy) || q == sf_cell(a, k, 2, fy));
        assert(sf_cell(a, k, 0, fy) == sf_cell(a, k, 0, fy));
    }
    if q == sf_cell(a, n, 0, fy) || q == sf_cell(a, n, 1, fy) || q == sf_cell(a, n, 2, fy) {
        assert(sf_cell(a, n, 0, fy) == sf_cell(a, n, 0, fy));
    }
}

/// `d2`, `sf` and `grid` are the start/finish stage's output on `d` for
/// direction `dir` and `m` cars (see [`phase3_start_finish`]).
pub open spec fn seated(d: &Corridor, dir: RaceDir, m: u32, d2: &Corridor, sf: &StartFinish, grid: &StartGrid) -> bool {
    &&& d2.wf()
    &&& sf.orient == perp(axis_of(Side::East))
    &&& side_delta(sf.gate.forward) == forward_delta(dir, 1, 0)
    &&& sf.chord@.len() == chord_len(m)
    &&& sf.chord@.len() >= m
    &&& sf.gate.behind@.len() == chord_len(m)
    &&& grid.positions@.len() == chord_len(m)
    &&& sf_anchor(d, sf.chord@[0])
    &&& forall|k: int| 0 <= k < chord_len(m) ==> {
        let (a, fy) = (sf.chord@[0], side_delta(sf.gate.forward).1);
        &&& #[trigger] sf.chord@[k] == sf_cell(a, k, 0, fy)
        &&& sf.gate.behind@[k] == sf_cell(a, k, 1, fy)
        &&& grid.positions@[k] == sf_cell(a, k, 2, fy)
        &&& d2.has(sf.chord@[k]) && d2.has(sf.gate.behind@[k]) && d2.has(grid.positions@[k])
    }
    &&& forall|q: Point| #[trigger] d.has(q) ==> d2.has(q)
    &&& forall|q: Point| #[trigger] d2.has(q) ==> d.has(q) || sf_cells(sf.chord@[0], chord_len(m), side_delta(sf.gate.forward).1, q)
}

/// The start/finish stage. The straight is the corridor's western outer
/// wall: its infield lies east, so travel runs north or south and the line
/// is a horizontal chord. The chord starts at the wall's anchor cell (the
/// least drivable cell) and runs outward (west) for `m` cells, at least
/// one, thickening the corridor into its outfield where needed; the timing
/// gate's cells lie one row back and the start grid two rows back, both
/// as wide as the chord. Forward is [`forward_side`] of the skeleton's direction
/// for that straight. The corridor keeps every drivable cell and gains
/// only those three rows. `v_target` is not read.
pub fn phase3_start_finish(d: Corridor, skel: &CoarseSkeleton, m: u32, v_target: i32) -> (r: Phase3Output)
    requires
        d.wf(),
        d.ox() - m - 3 >= i32::MIN,
        d.oy() - m - 3 >= i32::MIN,
        d.ox() + d.w() + m + 3 <= i32::MAX + 1,
        d.oy() + d.h() + m + 3 <= i32::MAX + 1,
        d.w() + 2 * (m + 3) <= usize::MAX,
        d.h() + 2 * (m + 3) <= usize::MAX,
    ensures
        seated(&d, skel.dir, m, &r.d, &r.sf, &r.grid),
{
    let inward = Side::East;
    let axis = axis_for_inward(inward);
    let forward = forward_side(skel.dir, inward);
    let (_, fy) = forward.delta();
    let len: u32 = if m == 0 { 1 } else { m };
    let pad: usize = len as usize + 2;
    let anchor = match d.first_drivable() {
        Some(p) => p,
        None => d.origin(),
    };
    proof {
        if exists|q: Point| #[trigger] d.has(q) {
            let q = choose|q: Point| #[trigger] d.has(q);
            assert(d.has(q));
            d.lemma_has_in_box(anchor);
        }
        assert(sf_anchor(&d, anchor));
        assert(d.in_box(anchor));
    }
    let mut nd = d.padded(pad);
    let mut chord: Vec<Point> = Vec::new();
    let mut behind: Vec<Point> = Vec::new();
    let mut positions: Vec<Point> = Vec::new();
    let mut i: u32 = 0;
    while i < len
        invariant
            nd.wf(),
            d.wf(),
            d.in_box(anchor),
            fy == side_delta(forward).1,
            fy == 1 || fy == -1,
            len == chord_len(m),
            pad == len + 2,
            d.ox() - m - 3 >= i32::MIN,
            d.oy() - m - 3 >= i32::MIN,
            d.ox() + d.w() + m + 3 <= i32::MAX + 1,
            d.oy() + d.h() + m + 3 <= i32::MAX + 1,
            i <= len,
            nd.ox() == d.ox() - pad && nd.oy() == d.oy() - pad,
            nd.w() == d.w() + 2 * pad && nd.h() == d.h() + 2 * pad,
            chord@.len() == i && behind@.len() == i && positions@.len() == i,
            forall|k: int| 0 <= k < i ==> {
                &&& #[trigger] chord@[k] == sf_cell(anchor, k, 0, fy as int)
                &&& behind@[k] == sf_cell(anchor, k, 1, fy as int)
                &&& positions@[k] == sf_cell(anchor, k, 2, fy as int)
            },
            forall|q: Point| #[trigger] nd.has(q) == (d.has(q) || sf_cells(anchor, i as int, fy as int, q)),
        decreases len - i,
    {
        proof {
            assert(len <= m + 1);
            assert(i32::MIN <= anchor.0 - i <= i32::MAX);
            assert(i32::MIN <= anchor.1 - 2 <= anchor.1 + 2 <= i32::MAX);
        }
        let x = (anchor.0 as i64 - i as i64) as i32;
        let c: Point = (x, anchor.1);
        let b: Point = (x, (anchor.1 as i64 - fy as i64) as i32);
        let g: Point = (x, (anchor.1 as i64 - 2 * fy as i64) as i32);
        proof {
            assert(c == sf_cell(anchor, i as int, 0, fy as int));
            assert(b == sf_cell(anchor, i as int, 1, fy as int));
            assert(g == sf_cell(anchor, i as int, 2, fy as int));
        }
        let ghost before = nd;
        nd.set(c, true);
        nd.set(b, true);
        nd.set(g, true);
        chord.push(c);
        behind.push(b);
        positions.push(g);
        proof {
            assert(c.0 == anchor.0 - i && b.0 == c.0 && g.0 == c.0);
            assert(c.1 == anchor.1 && b.1 == anchor.1 - fy && g.1 == anchor.1 - 2 * fy);
            assert(nd.in_box(c) && nd.in_box(b) && nd.in_box(g));
            assert forall|q: Point| #[trigger] nd.has(q) == (d.has(q) || sf_cells(anchor, i + 1, fy as int, q)) by {
                lemma_sf_cells_step(anchor, i as int, fy as int, q);
            }
        }
        i = i + 1;
    }
    proof {
        assert(chord@[0] == anchor);
        assert forall|k: int| 0 <= k < chord_len(m) implies nd.has(#[trigger] chord@[k]) && nd.has(behind@[k]) && nd.has(positions@[k]) by {
            assert(chord@[k] == sf_cell(anchor, k, 0, fy as int));
        }
    }
    Phase3Output {
        d: nd,
        sf: StartFinish {
            chord,
            orient: perp_orient(axis),
            gate: TimingGate { behind, forward },
        },
        grid: StartGrid { positions },
    }
}

/// Reversing the race direction reverses the local-forward side on every
/// straight.
pub proof fn lemma_forward_reverses(inward: Side)
    ensures
        forward_delta(RaceDir::Cw, side_delta(inward).0, side_delta(inward).1).0 == -forward_delta(RaceDir::Ccw, side_delta(inward).0, side_delta(inward).1).0,
        forward_delta(RaceDir::Cw, side_delta(inward).0, side_delta(inward).1).1 == -forward_delta(RaceDir::Ccw, side_delta(inward).0, side_delta(inward).1).1,
{
}

} // verus!
