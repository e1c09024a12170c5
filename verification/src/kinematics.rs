//! Car kinematics the passability and run-out checks read: the velocity
//! box, the inverse of a move, exact braking distances, the speed heatmap
//! lookup, and the braking ray.

use vstd::prelude::*;
use std::collections::BTreeSet;
use crate::checks::{is_wall_run, point_lt, unit_delta, wall_run};
use crate::corridor::Corridor;
use crate::geom::{sat, sat_sub, step_point, Point};
use crate::raster::box_small;

verus! {

broadcast use crate::corridor::Corridor::lemma_has_in_box;

/// A car's state: position and velocity.
#[derive(Clone, Copy, Debug, PartialEq, Eq, Hash, Structural)]
pub struct CarState {
    /// Position `x`.
    pub x: i32,
    /// Position `y`.
    pub y: i32,
    /// Velocity `x`.
    pub vx: i32,
    /// Velocity `y`.
    pub vy: i32,
}

/// `-v`, saturating (`i32::MIN` maps to `i32::MAX`).
pub open spec fn sat_neg(v: int) -> int {
    if v == i32::MIN { i32::MAX as int } else { -v }
}

/// Whether `s`'s velocity lies within the L∞ box `|vx| ≤ v_ceil ∧
/// |vy| ≤ v_ceil`; the box's floor is `-v_ceil` saturating, so the check is
/// total even at `v_ceil == i32::MIN`.
pub fn within_v_ceil(s: CarState, v_ceil: i32) -> (r: bool)
    ensures
        r == (sat_neg(v_ceil as int) <= s.vx <= v_ceil && sat_neg(v_ceil as int) <= s.vy <= v_ceil),
{
    let floor = if v_ceil == i32::MIN { i32::MAX } else { -v_ceil };
    s.vx >= floor && s.vx <= v_ceil && s.vy >= floor && s.vy <= v_ceil
}

/// The predecessor of `s2` under acceleration `(ax, ay)`, inverting a move
/// (which first adds the acceleration to the velocity, then the new
/// velocity to the position): `v = v2 - a` and `p = p2 - v2`. `None` when
/// any of those leaves the `i32` range. Only a candidate: whether the move
/// is legal is the caller's question.
pub fn predecessor(s2: CarState, accel: (i32, i32)) -> (r: Option<CarState>)
    ensures
        r matches Some(s) ==> s.vx == s2.vx - accel.0 && s.vy == s2.vy - accel.1 && s.x == s2.x - s2.vx && s.y == s2.y - s2.vy,
        r is None <==> !(i32::MIN <= s2.vx - accel.0 <= i32::MAX && i32::MIN <= s2.vy - accel.1 <= i32::MAX
            && i32::MIN <= s2.x - s2.vx <= i32::MAX && i32::MIN <= s2.y - s2.vy <= i32::MAX),
{
    let (ax, ay) = accel;
    let vx = match s2.vx.checked_sub(ax) {
        Some(v) => v,
        None => return None,
    };
    let vy = match s2.vy.checked_sub(ay) {
        Some(v) => v,
        None => return None,
    };
    let x = match s2.x.checked_sub(s2.vx) {
        Some(v) => v,
        None => return None,
    };
    let y = match s2.y.checked_sub(s2.vy) {
        Some(v) => v,
        None => return None,
    };
    Some(CarState { x, y, vx, vy })
}

/// Largest `v` with `v·(v+1) ≤ i32::MAX` (`46_340 · 46_341 = 2_147_441_940`).
pub const MAX_BRAKE_SPEED: i32 = 46_340;

/// `v` clamped into `[0, MAX_BRAKE_SPEED]`.
pub open spec fn brake_speed(v: int) -> int {
    if v < 0 { 0 } else if v > MAX_BRAKE_SPEED { MAX_BRAKE_SPEED as int } else { v }
}

/// `v·(v+1)/2` of the clamped speed: the cells needed to decelerate from
/// `v` to rest, one unit per turn.
pub open spec fn triangle(v: int) -> int {
    brake_speed(v) * (brake_speed(v) + 1) / 2
}

/// Exact `v·(v+1)/2` — the cell count to decelerate from `v` to rest under
/// `±1`-per-turn deceleration — with `v` clamped to `[0, MAX_BRAKE_SPEED]`
/// so the product never overflows.
pub fn triangular(v: i32) -> (r: i32)
    ensures
        r == triangle(v as int),
        0 <= r,
{
    let v = if v < 0 {
        0
    } else if v > MAX_BRAKE_SPEED {
        MAX_BRAKE_SPEED
    } else {
        v
    };
    proof {
        assert(0 <= v * (v + 1) <= 46340 * 46341) by (nonlinear_arith)
            requires 0 <= v <= 46340;
    }
    v * (v + 1) / 2
}

/// The triangular numbers grow with the speed: braking from a faster speed
/// never needs fewer cells.
pub proof fn lemma_triangle_monotone(a: int, b: int)
    requires
        a <= b,
    ensures
        triangle(a) <= triangle(b),
{
    let x = brake_speed(a);
    let y = brake_speed(b);
    assert(x <= y);
    assert(x * (x + 1) <= y * (y + 1)) by (nonlinear_arith)
        requires 0 <= x <= y;
    assert(x * (x + 1) / 2 <= y * (y + 1) / 2) by (nonlinear_arith)
        requires x * (x + 1) <= y * (y + 1), 0 <= x;
}

/// The braking budget to go from speed `from` to speed `to`: `0` when no
/// braking is needed (`to ≥ from`), else the triangular difference.
pub open spec fn braking_budget(from: int, to: int) -> int {
    if to >= from { 0 } else { sat(triangle(from) - triangle(to)) }
}

/// Braking-cell budget to decelerate from speed `from` to speed `to` —
/// `0` when `to >= from`.
pub fn braking_cells(from: i32, to: i32) -> (r: i32)
    ensures
        r == braking_budget(from as int, to as int),
        r >= 0,
{
    if to >= from {
        0
    } else {
        proof {
            lemma_triangle_monotone(to as int, from as int);
        }
        sat_sub(triangular(from), triangular(to))
    }
}

/// `heat` is sorted strictly ascending by point.
pub open spec fn heat_sorted(heat: Seq<(Point, i32)>) -> bool {
    forall|i: int, j: int| 0 <= i < j < heat.len() ==> point_lt(#[trigger] heat[i].0, #[trigger] heat[j].0)
}

/// The heatmap's recorded value at `p`, if `p` is recorded.
pub open spec fn heat_value(heat: Seq<(Point, i32)>, p: Point, v: i32) -> bool {
    exists|i: int| 0 <= i < heat.len() && #[trigger] heat[i] == (p, v)
}

/// The heatmap's recorded value at `p`, or `None`. The heatmap is sorted
/// ascending by point, so this is a binary search.
pub fn heatmap_at(heatmap: &Vec<(Point, i32)>, p: Point) -> (r: Option<i32>)
    requires
        heat_sorted(heatmap@),
    ensures
        r matches Some(v) ==> heat_value(heatmap@, p, v),
        r is None ==> forall|i: int| 0 <= i < heatmap@.len() ==> #[trigger] heatmap@[i].0 != p,
{
    let mut lo: usize = 0;
    let mut hi: usize = heatmap.len();
    while lo < hi
        invariant
            heat_sorted(heatmap@),
            lo <= hi <= heatmap@.len(),
            forall|i: int| 0 <= i < lo ==> point_lt(#[trigger] heatmap@[i].0, p),
            forall|i: int| hi <= i < heatmap@.len() ==> point_lt(p, #[trigger] heatmap@[i].0),
        decreases hi - lo,
    {
        let mid = lo + (hi - lo) / 2;
        let (q, v) = heatmap[mid];
        if q.0 == p.0 && q.1 == p.1 {
            proof {
                assert(heatmap@[mid as int] == (p, v));
            }
            return Some(v);
        } else if q.0 < p.0 || (q.0 == p.0 && q.1 < p.1) {
            proof {
                assert forall|i: int| 0 <= i < mid + 1 implies point_lt(#[trigger] heatmap@[i].0, p) by {
                    if i < mid {
                        assert(point_lt(heatmap@[i].0, heatmap@[mid as int].0));
                    }
                }
            }
            lo = mid + 1;
        } else {
            proof {
                assert forall|i: int| mid <= i < heatmap@.len() implies point_lt(p, #[trigger] heatmap@[i].0) by {
                    if i > mid {
                        assert(point_lt(heatmap@[mid as int].0, heatmap@[i].0));
                    }
                }
            }
            hi = mid;
        }
    }
    None
}

/// The indices of speed sinks along the fastest lap: index `0` whenever the
/// lap is non-empty (the start is at rest), and every index whose point
/// has a recorded heatmap speed of at most 1.
pub fn sink_indices(fastest_lap: &Vec<Point>, speed_heatmap: &Vec<(Point, i32)>) -> (r: BTreeSet<usize>)
    requires
        heat_sorted(speed_heatmap@),
    ensures
        forall|i: usize| #[trigger] r@.contains(i) ==> i < fastest_lap@.len(),
        fastest_lap@.len() > 0 ==> r@.contains(0usize),
        forall|i: usize| 0 < i < fastest_lap@.len() ==> (#[trigger] r@.contains(i) <==> exists|v: i32| v <= 1 && heat_value(speed_heatmap@, fastest_lap@[i as int], v)),
{
    broadcast use vstd::std_specs::btree::group_btree_axioms;
    let mut sinks: BTreeSet<usize> = BTreeSet::new();
    if fastest_lap.len() > 0 {
        sinks.insert(0);
    }
    let mut i: usize = 0;
    while i < fastest_lap.len()
        invariant
            heat_sorted(speed_heatmap@),
            i <= fastest_lap@.len(),
            forall|j: usize| #[trigger] sinks@.contains(j) ==> j < fastest_lap@.len(),
            fastest_lap@.len() > 0 ==> sinks@.contains(0usize),
            forall|j: usize| 0 < j < i ==> (#[trigger] sinks@.contains(j) <==> exists|v: i32| v <= 1 && heat_value(speed_heatmap@, fastest_lap@[j as int], v)),
            forall|j: usize| i <= j < fastest_lap@.len() && j > 0 ==> !#[trigger] sinks@.contains(j),
        decreases fastest_lap@.len() - i,
    {
        let p = fastest_lap[i];
        let h = heatmap_at(speed_heatmap, p);
        let low = match h {
            Some(v) => v <= 1,
            None => false,
        };
        if low {
            sinks.insert(i);
        }
        proof {
            if i > 0 {
                if exists|v: i32| v <= 1 && heat_value(speed_heatmap@, fastest_lap@[i as int], v) {
                    let v = choose|v: i32| v <= 1 && heat_value(speed_heatmap@, fastest_lap@[i as int], v);
                    let k = choose|k: int| 0 <= k < speed_heatmap@.len() && #[trigger] speed_heatmap@[k] == (p, v);
                    if let Some(w) = h {
                        let k2 = choose|k2: int| 0 <= k2 < speed_heatmap@.len() && #[trigger] speed_heatmap@[k2] == (p, w);
                        if k2 != k {
                            if k2 < k {
                                assert(point_lt(speed_heatmap@[k2].0, speed_heatmap@[k].0));
                            } else {
                                assert(point_lt(speed_heatmap@[k].0, speed_heatmap@[k2].0));
                            }
                        }
                    } else {
                        assert(speed_heatmap@[k].0 != p);
                    }
                }
            }
        }
        i = i + 1;
    }
    sinks
}

/// `v`'s absolute value, saturating (`i32::MIN` maps to `i32::MAX`).
pub open spec fn sat_abs(v: int) -> int {
    if v == i32::MIN { i32::MAX as int } else if v < 0 { -v } else { v }
}

/// The sign of `v`.
pub open spec fn signum(v: int) -> int {
    if v > 0 { 1 } else if v < 0 { -1 } else { 0 }
}

/// The dominant-axis sign of a step `(dx, dy)` (a tie goes to `x`).
pub open spec fn dominant(dx: int, dy: int) -> (int, int) {
    if sat_abs(dx) >= sat_abs(dy) { (signum(dx), 0) } else { (0, signum(dy)) }
}

/// The step of `path` at `idx`: forward to `idx + 1` when there is one,
/// else backward from `idx - 1`, else none — each difference saturating.
pub open spec fn path_step(path: Seq<Point>, idx: int) -> (int, int) {
    if idx + 1 < path.len() {
        (sat(path[idx + 1].0 - path[idx].0), sat(path[idx + 1].1 - path[idx].1))
    } else if idx > 0 {
        (sat(path[idx].0 - path[idx - 1].0), sat(path[idx].1 - path[idx - 1].1))
    } else {
        (0, 0)
    }
}

/// The dominant-axis sign of `path`'s step at `idx` (a tie goes to `x`):
/// the forward step when there is one, else the backward step at the last
/// index; `(0, 0)` for a single-point path or an out-of-range index.
pub fn travel_dir(path: &Vec<Point>, idx: usize) -> (r: (i32, i32))
    ensures
        idx >= path@.len() ==> r == (0i32, 0i32),
        idx < path@.len() ==> r.0 == dominant(path_step(path@, idx as int).0, path_step(path@, idx as int).1).0
            && r.1 == dominant(path_step(path@, idx as int).0, path_step(path@, idx as int).1).1,
{
    if idx >= path.len() {
        return (0, 0);
    }
    let cur = path[idx];
    let (dx, dy) = if idx < path.len() - 1 {
        let next = path[idx + 1];
        (sat_sub(next.0, cur.0), sat_sub(next.1, cur.1))
    } else if idx > 0 {
        let prev = path[idx - 1];
        (sat_sub(cur.0, prev.0), sat_sub(cur.1, prev.1))
    } else {
        (0, 0)
    };
    let ax = if dx == i32::MIN { i32::MAX } else if dx < 0 { -dx } else { dx };
    let ay = if dy == i32::MIN { i32::MAX } else if dy < 0 { -dy } else { dy };
    let sx: i32 = if dx > 0 { 1 } else if dx < 0 { -1 } else { 0 };
    let sy: i32 = if dy > 0 { 1 } else if dy < 0 { -1 } else { 0 };
    if ax >= ay {
        (sx, 0)
    } else {
        (0, sy)
    }
}

/// The cell `n` steps from `c` along `dir`, each step saturating.
pub open spec fn ray(c: Point, dir: (i32, i32), n: nat) -> Point
    decreases n,
{
    if n == 0 { c } else { step_point(ray(c, dir, (n - 1) as nat), dir.0 as int, dir.1 as int) }
}

/// How far `p` can still move along `dir` inside the box.
spec fn ray_measure(d: &Corridor, p: Point, dir: (i32, i32)) -> int {
    (if dir.0 > 0 { d.ox() + d.w() - p.0 } else if dir.0 < 0 { p.0 - d.ox() + 1 } else { 0 })
        + (if dir.1 > 0 { d.oy() + d.h() - p.1 } else if dir.1 < 0 { p.1 - d.oy() + 1 } else { 0 })
}

/// The last drivable cell walking from `c` along `dir`, `c` included — the
/// wall the braking ray hits. `c` itself when `c` is not drivable or `dir`
/// is `(0, 0)`; a saturated step that does not advance also ends the walk.
pub fn end_of_ray(d: &Corridor, c: Point, dir: (i32, i32)) -> (r: Point)
    requires
        d.wf(),
    ensures
        (dir == (0i32, 0i32) || !d.has(c)) ==> r == c,
        !(dir == (0i32, 0i32) || !d.has(c)) ==> exists|n: nat| #[trigger] ray(c, dir, n) == r
            && (forall|i: nat| i <= n ==> d.has(#[trigger] ray(c, dir, i)))
            && (ray(c, dir, n + 1) == r || !d.has(ray(c, dir, n + 1))),
{
    if (dir.0 == 0 && dir.1 == 0) || !d.contains(c) {
        return c;
    }
    let (dx, dy) = dir;
    let mut cur = c;
    let ghost mut n: nat = 0;
    loop
        invariant
            d.wf(),
            dir == (dx, dy),
            !(dir == (0i32, 0i32) || !d.has(c)),
            cur == ray(c, dir, n),
            d.has(cur),
            forall|i: nat| i <= n ==> d.has(#[trigger] ray(c, dir, i)),
        decreases ray_measure(d, cur, dir),
    {
        let next = (crate::geom::sat_add(cur.0, dx), crate::geom::sat_add(cur.1, dy));
        proof {
            assert(ray(c, dir, n + 1) == next);
        }
        if (next.0 == cur.0 && next.1 == cur.1) || !d.contains(next) {
            return cur;
        }
        proof {
            assert(d.in_box(cur) && d.in_box(next));
            n = n + 1;
            assert forall|i: nat| i <= n implies d.has(#[trigger] ray(c, dir, i)) by {
                if i < n {
                }
            }
        }
        cur = next;
    }
}

/// The geometric run-out room at `c` along a unit `dir`: the drivable run
/// from `c` (counting `c`) minus one, saturating.
pub fn runout_room(d: &Corridor, c: Point, dir: (i32, i32)) -> (r: i32)
    requires
        d.wf(),
        box_small(d),
        unit_delta(dir.0 as int, dir.1 as int),
    ensures
        exists|n: int| is_wall_run(d, c, dir.0 as int, dir.1 as int, n) && r == sat(n) - 1,
{
    let run = wall_run(d, c, dir);
    let run_i: i32 = if run <= 0x7fff_ffff { run as i32 } else { i32::MAX };
    proof {
        assert(is_wall_run(d, c, dir.0 as int, dir.1 as int, run as int));
    }
    sat_sub(run_i, 1)
}

} // verus!
