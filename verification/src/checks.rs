//! Ф4 — static validation of the fine corridor: connectivity, single-hole
//! topology, the start/finish width, and infield-finger liveness, with the
//! wall-distance walks the width checks read.

use vstd::prelude::*;
use std::collections::{BTreeMap, BTreeSet};
use crate::components::{bounded_complement_components, cells_fit, component_count, component_firsts};
use crate::corridor::Corridor;
use crate::geom::{neighbors4, neighbors4_spec, Orient, Point};
use crate::points::{set_has, set_len, set_to_vec};
use crate::order::lemma_point_order;
use crate::geom::{adjacent4, step_point};
use crate::raster::{
    all_coarse_ok, block_point_spec, block_points, block_size_ok, blocks_of, box_small, coarse_ok, in_block,
    lemma_rasterize_keeps_ring_and_infield, lemma_scale_bounds, rasterized,
};
use crate::skeleton::CoarseSkeleton;
use crate::track::StartFinish;

verus! {

broadcast use {vstd::std_specs::btree::group_btree_axioms, crate::corridor::Corridor::lemma_has_in_box};

/// One statically detected defect of the fine corridor. The derived order
/// is the repair severity order, highest first: the variants' declaration
/// order, then the payload (points ascending).
#[derive(Clone, Copy, PartialEq, Eq, PartialOrd, Ord, Hash, Debug)]
pub enum Issue {
    /// The corridor has more than one 4-connected component.
    Disconnected,
    /// The corridor's complement does not have exactly one bounded hole.
    BadTopology,
    /// An infield finger has been absorbed: its separating strip is
    /// entirely drivable, merging its two flanking arms.
    LostHairpin {
        /// The finger's coarse tip.
        tip: Point,
    },
    /// A drivable cell has intruded into the expanded hole mask.
    ArmsMerging {
        /// The least cell of the intrusion component.
        bridge: Point,
    },
    /// A degree-1 non-drivable protrusion cuts a concave corner.
    ConcaveChordCut {
        /// The protruding cell to make drivable.
        tooth: Point,
    },
    /// A perpendicular cross-section is narrower than the width floor.
    Narrow {
        /// The narrow chord's canonical (bottom/left cap) cell.
        center: Point,
        /// The narrow chord's own orientation.
        axis: Orient,
        /// The measured cross-section width.
        width: u32,
    },
    /// The start/finish chord is narrower than the start/finish floor.
    NarrowSf {
        /// The chord's least cell.
        center: Point,
        /// The chord's orientation.
        axis: Orient,
        /// The measured chord width.
        width: u32,
    },
    /// A corner-entry path point lacks the run-out room to brake.
    NoBraking {
        /// The first point of the deficient run.
        at: Point,
    },
}

/// `Some(Disconnected)` iff `d` does not have exactly one 4-connected
/// component.
pub fn check_connectivity(d: &Corridor) -> (r: Option<Issue>)
    requires
        d.wf(),
        box_small(d),
        cells_fit(d),
    ensures
        r == if component_firsts(d, true, false).len() != 1 { Some(Issue::Disconnected) } else { None },
{
    if component_count(d) != 1 {
        Some(Issue::Disconnected)
    } else {
        None
    }
}

/// `Some(BadTopology)` iff `d`'s complement does not have exactly one
/// bounded hole.
pub fn check_topology(d: &Corridor) -> (r: Option<Issue>)
    requires
        d.wf(),
        box_small(d),
        cells_fit(d),
    ensures
        r == if component_firsts(d, false, true).len() != 1 { Some(Issue::BadTopology) } else { None },
{
    if bounded_complement_components(d) != 1 {
        Some(Issue::BadTopology)
    } else {
        None
    }
}

/// A unit step.
pub open spec fn unit_delta(dx: int, dy: int) -> bool {
    (dx == 1 && dy == 0) || (dx == -1 && dy == 0) || (dx == 0 && dy == 1) || (dx == 0 && dy == -1)
}

/// The point `i` unit steps from `p` along `(dx, dy)`.
pub open spec fn offset(p: Point, dx: int, dy: int, i: int) -> Point {
    if dx == 1 {
        ((p.0 + i) as i32, p.1)
    } else if dx == -1 {
        ((p.0 - i) as i32, p.1)
    } else if dy == 1 {
        (p.0, (p.1 + i) as i32)
    } else {
        (p.0, (p.1 - i) as i32)
    }
}

/// `n` consecutive drivable cells start at `p` along `(dx, dy)`, and the
/// next one is not drivable.
pub open spec fn is_wall_run(d: &Corridor, p: Point, dx: int, dy: int, n: int) -> bool {
    &&& n >= 0
    &&& forall|i: int| 0 <= i < n ==> #[trigger] d.has(offset(p, dx, dy, i))
    &&& !d.has(offset(p, dx, dy, n))
}

/// The cell `i` unit steps from `p` along `(dx, dy)`, counted without
/// wrapping, lies in the box.
pub open spec fn run_end_in_box(d: &Corridor, p: Point, dx: int, dy: int, i: int) -> bool {
    &&& d.ox() <= p.0 + scaled(dx, i) < d.ox() + d.w()
    &&& d.oy() <= p.1 + scaled(dy, i) < d.oy() + d.h()
}

/// `i` unit steps along a coordinate of direction `d ∈ {-1, 0, 1}`.
pub open spec fn scaled(d: int, i: int) -> int {
    if d == 1 { i } else if d == -1 { -i } else { 0 }
}

/// The number of box cells on a line along a unit step: the width for a
/// horizontal step, the height for a vertical one.
pub open spec fn line_len(d: &Corridor, dx: int) -> int {
    if dx != 0 { d.w() } else { d.h() }
}

/// How far `p` is from leaving the box along a unit step.
spec fn exit_distance(d: &Corridor, p: Point, dx: int, dy: int) -> int {
    if dx == 1 {
        d.ox() + d.w() - p.0
    } else if dx == -1 {
        p.0 - d.ox() + 1
    } else if dy == 1 {
        d.oy() + d.h() - p.1
    } else {
        p.1 - d.oy() + 1
    }
}

/// The count of consecutive drivable cells starting at (and including) `p`,
/// one unit step at a time along `delta`, up to the first non-drivable or
/// out-of-box cell.
pub fn wall_run(d: &Corridor, p: Point, delta: (i32, i32)) -> (n: usize)
    requires
        d.wf(),
        box_small(d),
        unit_delta(delta.0 as int, delta.1 as int),
    ensures
        is_wall_run(d, p, delta.0 as int, delta.1 as int, n as int),
        n <= line_len(d, delta.0 as int),
        n <= d.w() + d.h(),
        n > 0 ==> d.in_box(p) && run_end_in_box(d, p, delta.0 as int, delta.1 as int, n - 1),
{
    let (dx, dy) = delta;
    let mut count: usize = 0;
    let mut cur = p;
    proof {
        assert(offset(p, dx as int, dy as int, 0) == p);
    }
    while d.contains(cur)
        invariant
            d.wf(),
            box_small(d),
            unit_delta(dx as int, dy as int),
            cur == offset(p, dx as int, dy as int, count as int),
            cur.0 == p.0 + scaled(dx as int, count as int) && cur.1 == p.1 + scaled(dy as int, count as int),
            forall|i: int| 0 <= i < count ==> #[trigger] d.has(offset(p, dx as int, dy as int, i)),
            count > 0 ==> d.in_box(p),
            count <= line_len(d, dx as int),
            count > 0 ==> d.in_box(offset(p, dx as int, dy as int, count - 1)),
            count > 0 ==> run_end_in_box(d, p, dx as int, dy as int, count - 1),
        decreases exit_distance(d, cur, dx as int, dy as int),
    {
        proof {
            assert(d.in_box(cur));
            if count == 0 {
                assert(cur == p);
            }
            assert(count + 1 <= line_len(d, dx as int)) by {
                if dx == 1 {
                    assert(cur.0 == p.0 + count);
                } else if dx == -1 {
                    assert(cur.0 == p.0 - count);
                } else if dy == 1 {
                    assert(cur.1 == p.1 + count);
                } else {
                    assert(cur.1 == p.1 - count);
                }
            }
        }
        let next = (cur.0 + dx, cur.1 + dy);
        count = count + 1;
        proof {
            assert(offset(p, dx as int, dy as int, count as int) == next);
        }
        cur = next;
    }
    count
}

/// The four wall-distance walks from `p`: `(left, right, up, down)`, each
/// the step count (`p` included) to the first non-drivable or out-of-box
/// cell.
pub fn wall_runs(d: &Corridor, p: Point) -> (r: (usize, usize, usize, usize))
    requires
        d.wf(),
        box_small(d),
    ensures
        is_wall_run(d, p, -1, 0, r.0 as int),
        is_wall_run(d, p, 1, 0, r.1 as int),
        is_wall_run(d, p, 0, 1, r.2 as int),
        is_wall_run(d, p, 0, -1, r.3 as int),
        r.0 <= d.w() && r.1 <= d.w() && r.2 <= d.h() && r.3 <= d.h(),
        r.0 > 0 ==> d.in_box(p) && run_end_in_box(d, p, -1, 0, r.0 - 1),
        r.1 > 0 ==> d.in_box(p) && run_end_in_box(d, p, 1, 0, r.1 - 1),
        r.2 > 0 ==> d.in_box(p) && run_end_in_box(d, p, 0, 1, r.2 - 1),
        r.3 > 0 ==> d.in_box(p) && run_end_in_box(d, p, 0, -1, r.3 - 1),
{
    (wall_run(d, p, (-1, 0)), wall_run(d, p, (1, 0)), wall_run(d, p, (0, 1)), wall_run(d, p, (0, -1)))
}

/// The length of the drivable run from `p` along `(dx, dy)`.
pub open spec fn run_len(d: &Corridor, p: Point, dx: int, dy: int) -> int {
    choose|n: int| is_wall_run(d, p, dx, dy, n)
}

/// A run has one length.
pub proof fn lemma_run_len(d: &Corridor, p: Point, dx: int, dy: int, n: int)
    requires
        is_wall_run(d, p, dx, dy, n),
    ensures
        run_len(d, p, dx, dy) == n,
{
    let m = run_len(d, p, dx, dy);
    assert(is_wall_run(d, p, dx, dy, m));
    if m < n {
        assert(d.has(offset(p, dx, dy, m)));
    } else if n < m {
        assert(d.has(offset(p, dx, dy, n)));
    }
}

proof fn lemma_run_found(d: &Corridor, p: Point, dx: int, dy: int, i: int, b: int)
    requires
        0 <= i <= b,
        forall|j: int| 0 <= j < i ==> #[trigger] d.has(offset(p, dx, dy, j)),
        !d.has(offset(p, dx, dy, b)),
    ensures
        exists|n: int| is_wall_run(d, p, dx, dy, n),
    decreases b - i,
{
    if d.has(offset(p, dx, dy, i)) {
        assert forall|j: int| 0 <= j < i + 1 implies #[trigger] d.has(offset(p, dx, dy, j)) by {}
        lemma_run_found(d, p, dx, dy, i + 1, b);
    } else {
        assert(is_wall_run(d, p, dx, dy, i));
    }
}

/// A run from `p` whose first `m` cells are drivable is at least `m` long.
pub proof fn lemma_run_at_least(d: &Corridor, p: Point, dx: int, dy: int, m: int)
    requires
        d.wf(),
        box_small(d),
        unit_delta(dx, dy),
        0 <= m,
        forall|i: int| 0 <= i < m ==> #[trigger] d.has(offset(p, dx, dy, i)),
    ensures
        run_len(d, p, dx, dy) >= m,
{
    if !d.has(p) {
        assert(offset(p, dx, dy, 0) == p);
        assert(is_wall_run(d, p, dx, dy, 0));
    } else {
        let b = exit_distance(d, p, dx, dy);
        assert(!d.has(offset(p, dx, dy, b)));
        lemma_run_found(d, p, dx, dy, 0, b);
    }
    let n = choose|n: int| is_wall_run(d, p, dx, dy, n);
    lemma_run_len(d, p, dx, dy, n);
    if n < m {
        assert(d.has(offset(p, dx, dy, n)));
    }
}

/// The run from `p` has the length [`run_len`] names.
pub proof fn lemma_run_exists(d: &Corridor, p: Point, dx: int, dy: int)
    requires
        d.wf(),
        box_small(d),
        unit_delta(dx, dy),
    ensures
        is_wall_run(d, p, dx, dy, run_len(d, p, dx, dy)),
{
    lemma_run_at_least(d, p, dx, dy, 0);
    if !d.has(p) {
        assert(offset(p, dx, dy, 0) == p);
        assert(is_wall_run(d, p, dx, dy, 0));
    } else {
        let b = exit_distance(d, p, dx, dy);
        assert(!d.has(offset(p, dx, dy, b)));
        lemma_run_found(d, p, dx, dy, 0, b);
    }
}

/// Cross-section widths depend on the drivable cells alone.
pub proof fn lemma_cross_width_by_cells(d1: &Corridor, d2: &Corridor, p: Point, axis: Orient)
    requires
        d1.wf(),
        d2.wf(),
        box_small(d1),
        box_small(d2),
        forall|q: Point| #[trigger] d1.has(q) == d2.has(q),
    ensures
        cross_width(d1, p, axis) == cross_width(d2, p, axis),
{
    assert forall|dx: int, dy: int| unit_delta(dx, dy) implies #[trigger] run_len(d1, p, dx, dy) == run_len(d2, p, dx, dy) by {
        lemma_run_exists(d1, p, dx, dy);
        let n = run_len(d1, p, dx, dy);
        assert forall|i: int| 0 <= i < n implies #[trigger] d2.has(offset(p, dx, dy, i)) by {
            assert(d1.has(offset(p, dx, dy, i)));
        }
        assert(!d1.has(offset(p, dx, dy, n)));
        assert(is_wall_run(d2, p, dx, dy, n));
        lemma_run_len(d2, p, dx, dy, n);
    }
    assert(unit_delta(1, 0) && unit_delta(-1, 0) && unit_delta(0, 1) && unit_delta(0, -1));
}

/// The cross-section width at `p` across `axis`: the two opposite runs
/// along it, `p` counted once, and zero when `p` is not drivable.
pub open spec fn cross_width(d: &Corridor, p: Point, axis: Orient) -> int {
    let s = match axis {
        Orient::Vertical => run_len(d, p, 0, 1) + run_len(d, p, 0, -1),
        Orient::Horizontal => run_len(d, p, -1, 0) + run_len(d, p, 1, 0),
    };
    if s >= 1 { s - 1 } else { 0 }
}

/// The rasterized corridor is at least a block wide wherever the ring
/// put it: every cell of a ring block has a horizontal and a vertical
/// cross-section of at least `k` cells.
pub proof fn lemma_ring_blocks_keep_block_width(ring: Set<Point>, hole: Set<Point>, k: int, d: &Corridor, p: Point)
    requires
        d.wf(),
        box_small(d),
        all_coarse_ok(ring),
        block_size_ok(k),
        rasterized(ring, hole, k, d),
        blocks_of(ring, k).contains(p),
    ensures
        cross_width(d, p, Orient::Horizontal) >= k,
        cross_width(d, p, Orient::Vertical) >= k,
{
    lemma_rasterize_keeps_ring_and_infield(ring, hole, k, d);
    let c = choose|c: Point| ring.contains(c) && #[trigger] in_block(p, c, k);
    assert(coarse_ok(c));
    lemma_scale_bounds(c.0 as int, k);
    lemma_scale_bounds(c.1 as int, k);
    let (x0, y0) = (c.0 * k, c.1 * k);
    assert forall|i: int| 0 <= i < x0 + k - p.0 implies #[trigger] d.has(offset(p, 1, 0, i)) by {
        assert(in_block(offset(p, 1, 0, i), c, k));
        assert(blocks_of(ring, k).contains(offset(p, 1, 0, i)));
    }
    assert forall|i: int| 0 <= i < p.0 - x0 + 1 implies #[trigger] d.has(offset(p, -1, 0, i)) by {
        assert(in_block(offset(p, -1, 0, i), c, k));
        assert(blocks_of(ring, k).contains(offset(p, -1, 0, i)));
    }
    assert forall|i: int| 0 <= i < y0 + k - p.1 implies #[trigger] d.has(offset(p, 0, 1, i)) by {
        assert(in_block(offset(p, 0, 1, i), c, k));
        assert(blocks_of(ring, k).contains(offset(p, 0, 1, i)));
    }
    assert forall|i: int| 0 <= i < p.1 - y0 + 1 implies #[trigger] d.has(offset(p, 0, -1, i)) by {
        assert(in_block(offset(p, 0, -1, i), c, k));
        assert(blocks_of(ring, k).contains(offset(p, 0, -1, i)));
    }
    lemma_run_at_least(d, p, 1, 0, x0 + k - p.0);
    lemma_run_at_least(d, p, -1, 0, p.0 - x0 + 1);
    lemma_run_at_least(d, p, 0, 1, y0 + k - p.1);
    lemma_run_at_least(d, p, 0, -1, p.1 - y0 + 1);
}

/// The corridor's cross-section width at `p` along `axis` (the narrow
/// chord's own orientation): the vertical run `up + down - 1` for
/// `Vertical`, the horizontal run `left + right - 1` for `Horizontal`.
pub fn axis_width(d: &Corridor, p: Point, axis: Orient) -> (r: u32)
    requires
        d.wf(),
        box_small(d),
    ensures
        r == cross_width(d, p, axis),
{
    let (left, right, up, down) = wall_runs(d, p);
    proof {
        lemma_run_len(d, p, -1, 0, left as int);
        lemma_run_len(d, p, 1, 0, right as int);
        lemma_run_len(d, p, 0, 1, up as int);
        lemma_run_len(d, p, 0, -1, down as int);
    }
    proof {
        assert(left + right <= d.w() + 1);
        assert(up + down <= d.h() + 1);
    }
    let run: usize = match axis {
        Orient::Vertical => if up + down >= 1 { up + down - 1 } else { 0 },
        Orient::Horizontal => if left + right >= 1 { left + right - 1 } else { 0 },
    };
    if run <= 0xffff_ffff { run as u32 } else { u32::MAX }
}

/// `a` comes before `b` in the lexicographic point order (`x`, then `y`).
pub open spec fn point_lt(a: Point, b: Point) -> bool {
    a.0 < b.0 || (a.0 == b.0 && a.1 < b.1)
}

/// `c` is the least point of `s` in the lexicographic order.
pub open spec fn is_least(s: Seq<Point>, c: Point) -> bool {
    s.contains(c) && forall|i: int| 0 <= i < s.len() ==> !point_lt(#[trigger] s[i], c)
}

/// The least point of `s`, or `None` when it is empty.
pub fn least_point(s: &Vec<Point>) -> (r: Option<Point>)
    ensures
        r is None <==> s@.len() == 0,
        r matches Some(c) ==> is_least(s@, c),
{
    if s.len() == 0 {
        return None;
    }
    let mut best = s[0];
    let mut i: usize = 1;
    proof {
        assert(s@.subrange(0, 1)[0] == s@[0]);
    }
    while i < s.len()
        invariant
            1 <= i <= s@.len(),
            s@.subrange(0, i as int).contains(best),
            forall|j: int| 0 <= j < i ==> !point_lt(#[trigger] s@[j], best),
        decreases s@.len() - i,
    {
        let q = s[i];
        let ghost old_best = best;
        if q.0 < best.0 || (q.0 == best.0 && q.1 < best.1) {
            best = q;
        }
        proof {
            assert(s@[i as int] == q);
            let j0 = choose|j: int| 0 <= j < i && s@.subrange(0, i as int)[j] == old_best;
            assert(s@.subrange(0, i + 1)[j0] == old_best);
            assert(s@.subrange(0, i + 1)[i as int] == q);
        }
        i = i + 1;
    }
    proof {
        assert(s@.subrange(0, s@.len() as int) == s@);
    }
    Some(best)
}

/// The start/finish chord's issue, if it is narrower than the floor `m`:
/// its width is the chord's cell count, and it is keyed on the chord's
/// least cell. An empty chord yields no issue.
pub fn check_narrow_sf(sf: &StartFinish, m: u32) -> (r: Option<Issue>)
    ensures
        (sf.chord@.len() >= m || sf.chord@.len() == 0) ==> r is None,
        0 < sf.chord@.len() < m ==> (r matches Some(Issue::NarrowSf { center, axis, width })
            && is_least(sf.chord@, center) && axis == sf.orient && width == sf.chord@.len()),
{
    let len = sf.chord.len();
    if len >= m as usize {
        return None;
    }
    match least_point(&sf.chord) {
        None => None,
        Some(center) => Some(Issue::NarrowSf { center, axis: sf.orient, width: len as u32 }),
    }
}

/// The number of `c`'s four 4-neighbors that lie in `s`.
pub open spec fn degree_in(s: Set<Point>, c: Point) -> int {
    let ns = neighbors4_spec(c);
    (if s.contains(ns[0]) { 1int } else { 0 }) + (if s.contains(ns[1]) { 1int } else { 0 }) + (if s.contains(ns[2]) { 1int } else { 0 }) + (if s.contains(ns[3]) { 1int } else { 0 })
}

/// The 4-connected degree of coarse cell `c` within `hole`: its count of
/// 4-neighbors also in `hole`.
pub fn hole_degree(hole: &BTreeSet<Point>, c: Point) -> (r: usize)
    ensures
        r == degree_in(hole@, c),
{
    let ns = neighbors4(c);
    let mut n: usize = 0;
    if set_has(hole, ns[0]) {
        n = n + 1;
    }
    if set_has(hole, ns[1]) {
        n = n + 1;
    }
    if set_has(hole, ns[2]) {
        n = n + 1;
    }
    if set_has(hole, ns[3]) {
        n = n + 1;
    }
    n
}

/// `c`'s coordinates are strictly inside the `i32` range, so its four
/// neighbors never saturate.
pub open spec fn interior_point(c: Point) -> bool {
    i32::MIN < c.0 < i32::MAX && i32::MIN < c.1 < i32::MAX
}

/// The neighbor `n` of `cur` qualifies as a next step: it is in `hole` and
/// is not the cell just left.
pub open spec fn qualifies(hole: Set<Point>, n: Point, prev: Option<Point>) -> bool {
    hole.contains(n) && prev != Some(n)
}

/// The walk's next cell from `cur`: its one qualifying 4-neighbor, or
/// `None` when there is not exactly one.
pub open spec fn walk_next(hole: Set<Point>, cur: Point, prev: Option<Point>) -> Option<Point> {
    let ns = neighbors4_spec(cur);
    let q0 = qualifies(hole, ns[0], prev);
    let q1 = qualifies(hole, ns[1], prev);
    let q2 = qualifies(hole, ns[2], prev);
    let q3 = qualifies(hole, ns[3], prev);
    let count = (if q0 { 1int } else { 0 }) + (if q1 { 1int } else { 0 }) + (if q2 { 1int } else { 0 }) + (if q3 { 1int } else { 0 });
    if count != 1 {
        None
    } else if q0 {
        Some(ns[0])
    } else if q1 {
        Some(ns[1])
    } else if q2 {
        Some(ns[2])
    } else {
        Some(ns[3])
    }
}

/// The cell before position `i` of a walk (none before the tip).
pub open spec fn prev_of(r: Seq<Point>, i: int) -> Option<Point> {
    if i == 0 { None } else { Some(r[i - 1]) }
}

/// `r` is the finger walk from `tip`: the tip, then each next cell the
/// unique qualifying neighbor of the one before it while that neighbor has
/// degree below 3, stopping at the first step that has no unique
/// candidate or meets a branch cell of degree 3 or more.
pub open spec fn is_finger_walk(hole: Set<Point>, tip: Point, r: Seq<Point>) -> bool {
    &&& r.len() >= 1
    &&& r[0] == tip
    &&& forall|i: int| 1 <= i < r.len() ==> walk_next(hole, r[i - 1], prev_of(r, i - 1)) == Some(#[trigger] r[i]) && degree_in(hole, r[i]) < 3
    &&& match walk_next(hole, r.last(), prev_of(r, r.len() - 1)) {
        None => true,
        Some(n) => degree_in(hole, n) >= 3,
    }
}

/// Two finger walks from one tip agree on their first `i` cells.
proof fn lemma_finger_walks_agree(hole: Set<Point>, tip: Point, r1: Seq<Point>, r2: Seq<Point>, i: int)
    requires
        is_finger_walk(hole, tip, r1),
        is_finger_walk(hole, tip, r2),
        0 <= i <= r1.len(),
        i <= r2.len(),
    ensures
        forall|j: int| 0 <= j < i ==> r1[j] == r2[j],
    decreases i,
{
    if i > 1 {
        lemma_finger_walks_agree(hole, tip, r1, r2, i - 1);
        assert(prev_of(r1, i - 2) == prev_of(r2, i - 2));
        assert(walk_next(hole, r1[i - 2], prev_of(r1, i - 2)) == Some(r1[i - 1]));
        assert(walk_next(hole, r2[i - 2], prev_of(r2, i - 2)) == Some(r2[i - 1]));
    }
}

/// The finger walk from a tip is unique.
pub proof fn lemma_finger_walk_unique(hole: Set<Point>, tip: Point, r1: Seq<Point>, r2: Seq<Point>)
    requires
        is_finger_walk(hole, tip, r1),
        is_finger_walk(hole, tip, r2),
    ensures
        r1 == r2,
{
    if r1.len() < r2.len() {
        let m: int = r1.len() as int;
        lemma_finger_walks_agree(hole, tip, r1, r2, m);
        assert(prev_of(r1, m - 1) == prev_of(r2, m - 1));
        assert(walk_next(hole, r2[m - 1], prev_of(r2, m - 1)) == Some(r2[m]) && degree_in(hole, r2[m]) < 3);
    } else if r2.len() < r1.len() {
        let m: int = r2.len() as int;
        lemma_finger_walks_agree(hole, tip, r1, r2, m);
        assert(prev_of(r1, m - 1) == prev_of(r2, m - 1));
        assert(walk_next(hole, r1[m - 1], prev_of(r1, m - 1)) == Some(r1[m]) && degree_in(hole, r1[m]) < 3);
    } else {
        lemma_finger_walks_agree(hole, tip, r1, r2, r1.len() as int);
    }
    assert(r1 =~= r2);
}

fn walk_next_exec(hole: &BTreeSet<Point>, cur: Point, prev: Option<Point>) -> (r: Option<Point>)
    ensures
        r == walk_next(hole@, cur, prev),
{
    let ns = neighbors4(cur);
    let q0 = set_has(hole, ns[0]) && match prev { Some(p) => p.0 != ns[0].0 || p.1 != ns[0].1, None => true };
    let q1 = set_has(hole, ns[1]) && match prev { Some(p) => p.0 != ns[1].0 || p.1 != ns[1].1, None => true };
    let q2 = set_has(hole, ns[2]) && match prev { Some(p) => p.0 != ns[2].0 || p.1 != ns[2].1, None => true };
    let q3 = set_has(hole, ns[3]) && match prev { Some(p) => p.0 != ns[3].0 || p.1 != ns[3].1, None => true };
    let count: u32 = (if q0 { 1u32 } else { 0 }) + (if q1 { 1u32 } else { 0 }) + (if q2 { 1u32 } else { 0 }) + (if q3 { 1u32 } else { 0 });
    if count != 1 {
        None
    } else if q0 {
        Some(ns[0])
    } else if q1 {
        Some(ns[1])
    } else if q2 {
        Some(ns[2])
    } else {
        Some(ns[3])
    }
}

proof fn lemma_neighbors_interior(c: Point)
    requires
        interior_point(c),
    ensures
        forall|n: Point| adjacent4(c, n) <==> (n == neighbors4_spec(c)[0] || n == neighbors4_spec(c)[1] || n == neighbors4_spec(c)[2] || n == neighbors4_spec(c)[3]),
{
}

/// A `Some` next step is the only hole neighbor of `cur` besides `prev`.
proof fn lemma_walk_next_only(hole: Set<Point>, cur: Point, prev: Option<Point>, n: Point)
    requires
        interior_point(cur),
        walk_next(hole, cur, prev) == Some(n),
    ensures
        hole.contains(n),
        adjacent4(cur, n),
        prev != Some(n),
        forall|m: Point| hole.contains(m) && #[trigger] adjacent4(cur, m) ==> m == n || prev == Some(m),
{
    lemma_neighbors_interior(cur);
}

/// The finger chain starting at coarse tip `tip`: the tip plus every
/// subsequent degree-`≤ 2` hole cell along the walk, stopping before the
/// first branch cell of degree 3 or more. The walk never revisits a cell.
#[verifier::rlimit(40)]
pub fn walk_finger(hole: &BTreeSet<Point>, tip: Point) -> (r: Vec<Point>)
    requires
        forall|c: Point| #[trigger] hole@.contains(c) ==> interior_point(c),
        interior_point(tip),
    ensures
        is_finger_walk(hole@, tip, r@),
        r@.no_duplicates(),
{
    let ghost h = hole@;
    let hl = set_len(hole);
    let mut chain: Vec<Point> = vec![tip];
    let mut prev: Option<Point> = None;
    let mut current = tip;
    proof {
        assert(chain@ == seq![tip]);
    }
    loop
        invariant
            h == hole@,
            h.finite(),
            hl == h.len(),
            forall|c: Point| #[trigger] h.contains(c) ==> interior_point(c),
            interior_point(tip),
            chain@.len() >= 1,
            chain@[0] == tip,
            current == chain@.last(),
            prev == prev_of(chain@, chain@.len() - 1),
            forall|i: int| 1 <= i < chain@.len() ==> walk_next(h, chain@[i - 1], prev_of(chain@, i - 1)) == Some(#[trigger] chain@[i]) && degree_in(h, chain@[i]) < 3,
            forall|i: int| 1 <= i < chain@.len() ==> h.contains(#[trigger] chain@[i]),
            chain@.no_duplicates(),
            forall|i: int, m: Point| 0 <= i < chain@.len() - 1 && h.contains(m) && #[trigger] adjacent4(chain@[i], m) ==> m == chain@[i + 1] || (i > 0 && m == chain@[i - 1]),
            chain@.len() <= hl + 1,
        ensures
            is_finger_walk(h, tip, chain@),
            chain@.no_duplicates(),
        decreases hl + 1 - chain@.len(),
    {
        let next = walk_next_exec(hole, current, prev);
        match next {
            None => {
                break;
            },
            Some(n) => {
                if hole_degree(hole, n) >= 3 {
                    break;
                }
                let ghost c0 = chain@;
                let ghost k: int = c0.len() - 1;
                proof {
                    assert(interior_point(current)) by {
                        if k > 0 {
                            assert(h.contains(c0[k]));
                        }
                    }
                    lemma_walk_next_only(h, current, prev, n);
                    // `n` is new: an earlier chain cell adjacent to `current` would be its
                    // neighbor on the chain.
                    assert forall|j: int| 0 <= j < c0.len() implies c0[j] != n by {
                        if c0[j] == n {
                            if j == k {
                                assert(!adjacent4(current, current));
                            } else if j == k - 1 {
                                assert(prev == Some(c0[j]));
                            } else {
                                // c0[j] has current as a hole neighbor; only c0[j + 1] / c0[j - 1] are
                                assert(adjacent4(c0[j], current));
                                assert(h.contains(current)) by {
                                    if k == 0 {
                                        assert(j < 0);
                                    }
                                }
                                assert(current == c0[j + 1] || (j > 0 && current == c0[j - 1]));
                                assert(c0[k] == current);
                            }
                        }
                    }
                }
                chain.push(n);
                prev = Some(current);
                current = n;
                proof {
                    let c1 = chain@;
                    assert(c1 == c0.push(n));
                    assert forall|i: int| 1 <= i < c1.len() implies walk_next(h, c1[i - 1], prev_of(c1, i - 1)) == Some(#[trigger] c1[i]) && degree_in(h, c1[i]) < 3 by {
                        if i < c0.len() {
                            assert(c1[i] == c0[i] && c1[i - 1] == c0[i - 1]);
                            assert(prev_of(c1, i - 1) == prev_of(c0, i - 1));
                        } else {
                            assert(c1[i - 1] == c0[k]);
                            assert(prev_of(c1, i - 1) == prev_of(c0, k));
                        }
                    }
                    assert forall|i: int, m: Point| 0 <= i < c1.len() - 1 && h.contains(m) && #[trigger] adjacent4(c1[i], m) implies m == c1[i + 1] || (i > 0 && m == c1[i - 1]) by {
                        if i < k {
                            assert(c1[i] == c0[i] && c1[i + 1] == c0[i + 1]);
                            if i > 0 {
                                assert(c1[i - 1] == c0[i - 1]);
                            }
                        } else {
                            assert(i == k);
                            assert(c1[i] == c0[k]);
                            lemma_walk_next_only(h, c0[k], prev_of(c0, k), n);
                            if k > 0 {
                                assert(c1[i - 1] == c0[k - 1]);
                            }
                        }
                    }
                    // the chain's tail is a set of distinct hole cells
                    let tail = c1.subrange(1, c1.len() as int);
                    assert(tail.no_duplicates());
                    assert(tail.to_set().subset_of(h)) by {
                        assert forall|x: Point| tail.to_set().contains(x) implies h.contains(x) by {
                            let j = choose|j: int| 0 <= j < tail.len() && tail[j] == x;
                            assert(c1[j + 1] == x);
                        }
                    }
                    tail.unique_seq_to_set();
                    vstd::set_lib::lemma_len_subset(tail.to_set(), h);
                }
            },
        }
    }
    chain
}

/// The infield fingers of the coarse hole, keyed by their tips: every hole
/// cell with exactly one 4-neighbor in the hole is a tip, and its finger is
/// its [`walk_finger`] chain.
pub fn infield_fingers(skel: &CoarseSkeleton) -> (r: BTreeMap<Point, Vec<Point>>)
    requires
        forall|c: Point| #[trigger] skel.hole@.contains(c) ==> interior_point(c),
    ensures
        forall|c: Point| #[trigger] r@.contains_key(c) <==> (skel.hole@.contains(c) && degree_in(skel.hole@, c) == 1),
        forall|c: Point| #[trigger] r@.contains_key(c) ==> is_finger_walk(skel.hole@, c, r@[c]@),
{
    proof {
        lemma_point_order();
    }
    let v = set_to_vec(&skel.hole);
    let mut r: BTreeMap<Point, Vec<Point>> = BTreeMap::new();
    let mut i: usize = 0;
    while i < v.len()
        invariant
            i <= v@.len(),
            v@.to_set() == skel.hole@,
            crate::order::point_order_ok(),
            forall|c: Point| #[trigger] skel.hole@.contains(c) ==> interior_point(c),
            forall|c: Point| #[trigger] r@.contains_key(c) <==> (degree_in(skel.hole@, c) == 1 && exists|k: int| 0 <= k < i && v@[k] == c),
            forall|c: Point| #[trigger] r@.contains_key(c) ==> is_finger_walk(skel.hole@, c, r@[c]@),
        decreases v@.len() - i,
    {
        let c = v[i];
        proof {
            assert(v@.to_set().contains(c));
        }
        if hole_degree(&skel.hole, c) == 1 {
            let finger = walk_finger(&skel.hole, c);
            r.insert(c, finger);
        }
        proof {
            assert(v@[i as int] == c);
            assert forall|x: Point| #[trigger] r@.contains_key(x) <==> (degree_in(skel.hole@, x) == 1 && exists|k: int| 0 <= k < i + 1 && v@[k] == x) by {
                if exists|k: int| 0 <= k < i + 1 && v@[k] == x {
                    let k = choose|k: int| 0 <= k < i + 1 && v@[k] == x;
                    if k < i {
                        assert(exists|k2: int| 0 <= k2 < i && v@[k2] == x);
                    }
                }
            }
        }
        i = i + 1;
    }
    proof {
        assert forall|c: Point| #[trigger] r@.contains_key(c) <==> (skel.hole@.contains(c) && degree_in(skel.hole@, c) == 1) by {
            if skel.hole@.contains(c) {
                assert(v@.to_set().contains(c));
                let k = choose|k: int| 0 <= k < v@.len() && v@[k] == c;
            }
            if r@.contains_key(c) {
                let k = choose|k: int| 0 <= k < v@.len() && v@[k] == c;
                assert(v@.to_set().contains(v@[k]));
            }
        }
    }
    r
}

/// Every fine cell of every coarse cell's `k×k` block lies in `d`.
pub open spec fn footprint_drivable(finger: Seq<Point>, d: &Corridor, k: int) -> bool {
    forall|i: int, dx: int, dy: int| 0 <= i < finger.len() && 0 <= dx < k && 0 <= dy < k ==> #[trigger] d.has(block_point_spec(finger[i], k, dx, dy))
}

/// Whether the finger's fine footprint (the `k×k` block of each of its
/// coarse cells) is entirely drivable — its separating infield strip is
/// filled, so its two flanking arms have merged.
pub fn absorbed(finger: &Vec<Point>, d: &Corridor, k: i32) -> (r: bool)
    requires
        d.wf(),
    ensures
        r == footprint_drivable(finger@, d, k as int),
{
    let mut i: usize = 0;
    while i < finger.len()
        invariant
            d.wf(),
            i <= finger@.len(),
            footprint_drivable(finger@.subrange(0, i as int), d, k as int),
        decreases finger@.len() - i,
    {
        let pts = block_points(finger[i], k);
        let mut j: usize = 0;
        while j < pts.len()
            invariant
                d.wf(),
                i < finger@.len(),
                k <= 0 ==> pts@.len() == 0,
                k > 0 ==> pts@.len() == k * k,
                forall|dx: int, dy: int| 0 <= dx < k && 0 <= dy < k ==> #[trigger] pts@[dy * k + dx] == block_point_spec(finger@[i as int], k as int, dx, dy),
                j <= pts@.len(),
                forall|t: int| 0 <= t < j ==> #[trigger] d.has(pts@[t]),
            decreases pts@.len() - j,
        {
            if !d.contains(pts[j]) {
                proof {
                    if k > 0 {
                        let dy = j as int / k as int;
                        let dx = j as int % k as int;
                        assert(dy * k + dx == j) by (nonlinear_arith)
                            requires dy == j as int / k as int, dx == j as int % k as int, k > 0;
                        assert(0 <= dx < k && 0 <= dy < k) by (nonlinear_arith)
                            requires dy == j as int / k as int, dx == j as int % k as int, k > 0, 0 <= j < k * k;
                        assert(pts@[dy * k + dx] == block_point_spec(finger@[i as int], k as int, dx, dy));
                        assert(!d.has(block_point_spec(finger@[i as int], k as int, dx, dy)));
                    }
                }
                return false;
            }
            j = j + 1;
        }
        proof {
            assert forall|t: int, dx: int, dy: int| 0 <= t < i + 1 && 0 <= dx < k && 0 <= dy < k implies #[trigger] d.has(block_point_spec(finger@.subrange(0, i + 1)[t], k as int, dx, dy)) by {
                if t < i {
                    assert(finger@.subrange(0, i + 1)[t] == finger@.subrange(0, i as int)[t]);
                } else {
                    assert(0 <= dy * k + dx < k * k) by (nonlinear_arith)
                        requires 0 <= dx < k, 0 <= dy < k;
                    assert(d.has(pts@[dy * k + dx]));
                }
            }
        }
        i = i + 1;
    }
    proof {
        assert(finger@.subrange(0, finger@.len() as int) == finger@);
    }
    true
}

} // verus!
