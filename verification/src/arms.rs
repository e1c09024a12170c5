//! Ф6 — the repair arms that stand on the corridor alone, and the edit
//! vocabulary they share: a wall names a single cell flip, an arm either
//! commits one such edit or declines with a reason.

use vstd::prelude::*;
use crate::checks::{axis_width, cross_width, lemma_cross_width_by_cells};
use crate::components::{
    bounded_complement_components, cells_fit, component_count, component_firsts, lemma_components_by_cells,
};
use crate::corridor::Corridor;
use crate::geom::{side_delta, sat, step_point, Orient, Point, Side};
use crate::kinematics::{end_of_ray, ray};
use crate::checks::{absorbed, degree_in, footprint_drivable, infield_fingers, interior_point, is_finger_walk, lemma_finger_walk_unique};
use crate::order::{lemma_point_order, sorted_points};
use crate::points::{set_add, set_to_vec};
use crate::flood::{flood, is_path, linked, member};
use crate::geom::adjacent4;
use crate::points::set_has;
use crate::raster::{all_coarse_ok, block_point_spec, block_points, block_size_ok, blocks_of, box_small, hole_mask};
use crate::skeleton::CoarseSkeleton;
use std::collections::BTreeSet;
use crate::repair::{recheck_scope, scope_of, DeclineReason, DispatchLabel, RecheckScope, RepairArm};
use crate::checks::Issue;

verus! {

/// A wall: one side of a cell.
#[derive(Clone, Copy, PartialEq, Eq, Debug)]
pub struct Wall {
    /// The cell the wall belongs to.
    pub cell: Point,
    /// Which side of the cell.
    pub side: Side,
}

/// The cell across `w`, or `None` when it leaves the `i32` range.
pub open spec fn across(w: Wall) -> Option<Point> {
    let x = w.cell.0 + side_delta(w.side).0;
    let y = w.cell.1 + side_delta(w.side).1;
    if i32::MIN <= x <= i32::MAX && i32::MIN <= y <= i32::MAX {
        Some((x as i32, y as i32))
    } else {
        None
    }
}

/// The cell across `w`, or `None` when it leaves the `i32` range.
pub fn wall_neighbor(w: Wall) -> (r: Option<Point>)
    ensures
        r == across(w),
{
    let (dx, dy) = w.side.delta();
    match (w.cell.0.checked_add(dx), w.cell.1.checked_add(dy)) {
        (Some(x), Some(y)) => Some((x, y)),
        _ => None,
    }
}

/// One committed edit: which arm made it, the wall naming it, the single
/// cell that flipped, its new drivability, and the recheck it took.
#[derive(Clone, Copy, PartialEq, Eq, Debug)]
pub struct CommittedEdit {
    /// The arm that produced the edit.
    pub arm: RepairArm,
    /// The wall naming the flip.
    pub wall: Wall,
    /// The cell whose drivability flipped.
    pub cell: Point,
    /// `true` for an add-edit, `false` for a remove-edit.
    pub drivable: bool,
    /// The recheck the edit took.
    pub recheck: RecheckScope,
}

/// What an arm did with its label.
#[derive(Clone, Copy, PartialEq, Eq, Debug)]
pub enum ArmOutcome {
    /// The arm committed this edit.
    Edit(CommittedEdit),
    /// The arm committed nothing, for this reason.
    NoEdit(DeclineReason),
}

/// An add-edit across `w` is admissible: the cell across it lies in the
/// box and is not drivable yet.
pub open spec fn admissible_add(d: &Corridor, w: Wall) -> bool {
    across(w) matches Some(q) && d.in_box(q) && !d.has(q)
}

/// `d2` is `d` with cell `q` (in the box) made drivable.
pub open spec fn plus_cell(d: &Corridor, q: Point, d2: &Corridor) -> bool {
    &&& d2.wf()
    &&& d2.same_box(d)
    &&& forall|p: Point| #[trigger] d2.has(p) == (d.has(p) || p == q)
}

/// The cross-section width at `center` across `axis` once `q` is made
/// drivable.
pub open spec fn width_with(d: &Corridor, q: Point, center: Point, axis: Orient) -> int {
    cross_width(&choose|d2: Corridor| plus_cell(d, q, &d2), center, axis)
}

/// Every corridor that is `d` plus `q` has the width [`width_with`] names.
proof fn lemma_width_with(d: &Corridor, q: Point, d2: &Corridor, center: Point, axis: Orient)
    requires
        d.wf(),
        box_small(d),
        plus_cell(d, q, d2),
    ensures
        cross_width(d2, center, axis) == width_with(d, q, center, axis),
{
    let d3 = choose|d3: Corridor| plus_cell(d, q, &d3);
    assert(plus_cell(d, q, &d3));
    assert forall|p: Point| #[trigger] d2.has(p) == d3.has(p) by {}
    lemma_cross_width_by_cells(d2, &d3, center, axis);
}

/// The unit step along `axis`'s positive direction.
pub open spec fn positive_dir(axis: Orient) -> (i32, i32) {
    match axis {
        Orient::Vertical => (0i32, 1i32),
        Orient::Horizontal => (1i32, 0i32),
    }
}

/// The sides the two cap walls of a chord along `axis` sit on: its
/// negative end's, then its positive end's.
pub open spec fn cap_sides(axis: Orient) -> (Side, Side) {
    match axis {
        Orient::Vertical => (Side::South, Side::North),
        Orient::Horizontal => (Side::West, Side::East),
    }
}

/// `f` is the last drivable cell of the run from `c` along `dir`: every
/// cell from `c` up to `f` is drivable and the next one is not.
pub open spec fn ray_end(d: &Corridor, c: Point, dir: (i32, i32), f: Point) -> bool {
    exists|n: nat| #[trigger] ray(c, dir, n) == f && (forall|i: nat| i <= n ==> d.has(#[trigger] ray(c, dir, i))) && !d.has(
        ray(c, dir, n + 1),
    )
}

/// The narrow chord's cap walls: its negative-end wall at `center`, and
/// its positive-end wall at the end of the drivable run from `center`.
pub open spec fn cap_wall(d: &Corridor, center: Point, axis: Orient, w: Wall) -> bool {
    ||| w == Wall { cell: center, side: cap_sides(axis).0 }
    ||| w.side == cap_sides(axis).1 && ray_end(d, center, positive_dir(axis), w.cell)
}

/// The end of a drivable run is unique.
proof fn lemma_ray_end_unique(d: &Corridor, c: Point, dir: (i32, i32), f1: Point, f2: Point)
    requires
        ray_end(d, c, dir, f1),
        ray_end(d, c, dir, f2),
    ensures
        f1 == f2,
{
    let n1 = choose|n: nat| #[trigger] ray(c, dir, n) == f1 && (forall|i: nat| i <= n ==> d.has(#[trigger] ray(c, dir, i))) && !d.has(
        ray(c, dir, n + 1),
    );
    let n2 = choose|n: nat| #[trigger] ray(c, dir, n) == f2 && (forall|i: nat| i <= n ==> d.has(#[trigger] ray(c, dir, i))) && !d.has(
        ray(c, dir, n + 1),
    );
    if n1 < n2 {
        assert(d.has(ray(c, dir, (n1 + 1) as nat)));
    } else if n2 < n1 {
        assert(d.has(ray(c, dir, (n2 + 1) as nat)));
    }
}

/// The width the edit across `w` leaves at `center`, when it is
/// admissible.
fn add_width(d: &Corridor, w: Wall, center: Point, axis: Orient) -> (r: Option<u32>)
    requires
        d.wf(),
        box_small(d),
    ensures
        r is None <==> !admissible_add(d, w),
        r matches Some(nw) ==> nw == width_with(d, across(w)->0, center, axis),
{
    match wall_neighbor(w) {
        None => None,
        Some(q) => {
            if !d.box_contains(q) || d.contains(q) {
                None
            } else {
                let mut scratch = d.clone();
                scratch.set(q, true);
                proof {
                    assert(plus_cell(d, q, &scratch));
                    lemma_width_with(d, q, &scratch, center, axis);
                }
                Some(axis_width(&scratch, center, axis))
            }
        },
    }
}

/// Some admissible cap wall of the chord widens it.
pub open spec fn some_cap_gains(d: &Corridor, center: Point, axis: Orient) -> bool {
    exists|w: Wall| #[trigger] cap_wall(d, center, axis, w) && admissible_add(d, w) && width_with(d, across(w)->0, center, axis)
        > cross_width(d, center, axis)
}

/// Some cap wall of the chord is admissible.
pub open spec fn some_cap_admissible(d: &Corridor, center: Point, axis: Orient) -> bool {
    exists|w: Wall| #[trigger] cap_wall(d, center, axis, w) && admissible_add(d, w)
}

/// What the narrow-chord arm answers for the chord through `center` along
/// `axis` (see [`push_outer_wall_out`]).
pub open spec fn push_outcome(d: &Corridor, center: Point, axis: Orient, r: ArmOutcome) -> bool {
    &&& !d.has(center) ==> r == ArmOutcome::NoEdit(DeclineReason::StalePayload)
    &&& d.has(center) ==> (r matches ArmOutcome::Edit(e) ==> {
        &&& e.arm == RepairArm::PushOuterWallOut
        &&& e.drivable
        &&& e.recheck == scope_of(RepairArm::PushOuterWallOut)
        &&& cap_wall(d, center, axis, e.wall)
        &&& admissible_add(d, e.wall)
        &&& across(e.wall) == Some(e.cell)
        &&& width_with(d, e.cell, center, axis) > cross_width(d, center, axis)
        &&& forall|w: Wall| #[trigger] cap_wall(d, center, axis, w) && admissible_add(d, w) ==> width_with(
            d,
            across(w)->0,
            center,
            axis,
        ) <= width_with(d, e.cell, center, axis)
        &&& e.wall.side == cap_sides(axis).0 ==> forall|w: Wall|
            #[trigger] cap_wall(d, center, axis, w) && w.side == cap_sides(axis).1 && admissible_add(d, w) ==> width_with(
                d,
                across(w)->0,
                center,
                axis,
            ) < width_with(d, e.cell, center, axis)
    })
    &&& d.has(center) ==> (r is Edit <==> some_cap_gains(d, center, axis))
    &&& d.has(center) ==> (r == ArmOutcome::NoEdit(DeclineReason::MetricNotImproved) <==> some_cap_admissible(d, center, axis)
        && !some_cap_gains(d, center, axis))
    &&& d.has(center) ==> (r == ArmOutcome::NoEdit(DeclineReason::NoCandidate) <==> !some_cap_admissible(d, center, axis))
}

/// The narrow-chord arm: tries both cap walls of the chord through
/// `center` along `axis` — the wall at `center` on the negative side, and
/// the wall at the far end of the drivable run on the positive side — and
/// commits the add-edit whose cell widens the chord most. Declines as
/// stale when `center` is no longer drivable, as not improved when an
/// admissible cap widens nothing, and as without candidate when neither
/// cap is admissible. Of two caps with equal gain the positive one (north
/// of a vertical chord, east of a horizontal one) is taken: the negative
/// cap wins only when it widens the chord strictly more.
pub fn push_outer_wall_out(d: &Corridor, center: Point, axis: Orient) -> (r: ArmOutcome)
    requires
        d.wf(),
        box_small(d),
    ensures
        push_outcome(d, center, axis, r),
{
    if !d.contains(center) {
        return ArmOutcome::NoEdit(DeclineReason::StalePayload);
    }
    let dir: (i32, i32) = match axis {
        Orient::Vertical => (0, 1),
        Orient::Horizontal => (1, 0),
    };
    let far = end_of_ray(d, center, dir);
    let (neg, pos) = match axis {
        Orient::Vertical => (Side::South, Side::North),
        Orient::Horizontal => (Side::West, Side::East),
    };
    let c0 = Wall { cell: center, side: neg };
    let c1 = Wall { cell: far, side: pos };
    proof {
        assert(dir == positive_dir(axis));
        assert((neg, pos) == cap_sides(axis));
        let n = choose|n: nat| #[trigger] ray(center, dir, n) == far && (forall|i: nat| i <= n ==> d.has(#[trigger] ray(center, dir, i)))
            && (ray(center, dir, n + 1) == far || !d.has(ray(center, dir, n + 1)));
        assert(d.has(ray(center, dir, n)));
        d.lemma_has_in_box(far);
        assert(ray(center, dir, n + 1) == step_point(far, dir.0 as int, dir.1 as int));
        assert(sat(far.0 + dir.0) == far.0 + dir.0 && sat(far.1 + dir.1) == far.1 + dir.1);
        assert(ray(center, dir, n + 1) != far);
        assert(ray_end(d, center, dir, far));
        assert forall|w: Wall| #[trigger] cap_wall(d, center, axis, w) implies w == c0 || w == c1 by {
            if w != c0 {
                lemma_ray_end_unique(d, center, dir, w.cell, far);
            }
        }
        assert(cap_wall(d, center, axis, c0) && cap_wall(d, center, axis, c1));
    }
    let base = axis_width(d, center, axis);
    let g0 = add_width(d, c0, center, axis);
    let g1 = add_width(d, c1, center, axis);
    let better0 = match g0 {
        Some(x) => x > base,
        None => false,
    };
    let better1 = match g1 {
        Some(x) => x > base,
        None => false,
    };
    let take0 = better0 && match (g0, g1) {
        (Some(x), Some(y)) => x > y || !better1,
        _ => true,
    };
    if take0 {
        let cell = match wall_neighbor(c0) {
            Some(q) => q,
            None => center,
        };
        ArmOutcome::Edit(
            CommittedEdit {
                arm: RepairArm::PushOuterWallOut,
                wall: c0,
                cell,
                drivable: true,
                recheck: recheck_scope(RepairArm::PushOuterWallOut),
            },
        )
    } else if better1 {
        let cell = match wall_neighbor(c1) {
            Some(q) => q,
            None => center,
        };
        ArmOutcome::Edit(
            CommittedEdit {
                arm: RepairArm::PushOuterWallOut,
                wall: c1,
                cell,
                drivable: true,
                recheck: recheck_scope(RepairArm::PushOuterWallOut),
            },
        )
    } else if g0.is_some() || g1.is_some() {
        ArmOutcome::NoEdit(DeclineReason::MetricNotImproved)
    } else {
        ArmOutcome::NoEdit(DeclineReason::NoCandidate)
    }
}

/// The side `side` of cell `c` is open: the cell across it is not
/// drivable, or lies beyond the `i32` range.
pub open spec fn boundary_side(d: &Corridor, c: Point, side: Side) -> bool {
    match across(Wall { cell: c, side }) {
        Some(q) => !d.has(q),
        None => true,
    }
}

/// A remove-edit on `c` is admissible: `c` is drivable and on the
/// corridor's boundary, so taking it out punches no new hole by itself.
pub open spec fn removable(d: &Corridor, c: Point) -> bool {
    &&& d.has(c)
    &&& boundary_side(d, c, Side::East) || boundary_side(d, c, Side::West) || boundary_side(d, c, Side::North)
        || boundary_side(d, c, Side::South)
}

/// Whether side `side` of `c` is open.
fn open_side(d: &Corridor, c: Point, side: Side) -> (r: bool)
    requires
        d.wf(),
    ensures
        r == boundary_side(d, c, side),
{
    match wall_neighbor(Wall { cell: c, side }) {
        Some(q) => !d.contains(q),
        None => true,
    }
}

/// The wall naming the remove-edit on `c`: one of its open sides, or `None`
/// when `c` is not drivable or has no open side (an interior cell, whose
/// removal would punch a hole). Of several open sides the first of east,
/// west, north, south is named; the contract says only that it is open.
pub fn remove_edit_wall(d: &Corridor, c: Point) -> (r: Option<Wall>)
    requires
        d.wf(),
    ensures
        r is None <==> !removable(d, c),
        r matches Some(w) ==> w.cell == c && boundary_side(d, c, w.side),
{
    if !d.contains(c) {
        None
    } else if open_side(d, c, Side::East) {
        Some(Wall { cell: c, side: Side::East })
    } else if open_side(d, c, Side::West) {
        Some(Wall { cell: c, side: Side::West })
    } else if open_side(d, c, Side::North) {
        Some(Wall { cell: c, side: Side::North })
    } else if open_side(d, c, Side::South) {
        Some(Wall { cell: c, side: Side::South })
    } else {
        None
    }
}

/// `d2` is `d` with cell `c` made non-drivable.
pub open spec fn minus_cell(d: &Corridor, c: Point, d2: &Corridor) -> bool {
    &&& d2.wf()
    &&& d2.same_box(d)
    &&& forall|p: Point| #[trigger] d2.has(p) == (d.has(p) && p != c)
}

/// The corridor is one drivable component enclosing exactly one hole.
pub open spec fn one_ring(d: &Corridor) -> bool {
    component_firsts(d, true, false).len() == 1 && component_firsts(d, false, true).len() == 1
}

/// Taking `c` out of `d` keeps it one component enclosing one hole.
pub open spec fn removal_keeps_ring(d: &Corridor, c: Point) -> bool {
    one_ring(&choose|d2: Corridor| minus_cell(d, c, &d2))
}

/// A remove-edit on `c` is admissible and passes the global recheck.
pub open spec fn good_remove(d: &Corridor, c: Point) -> bool {
    removable(d, c) && removal_keeps_ring(d, c)
}

/// `r` is what the first-admissible remove search over `cands` for `arm`
/// answers: the first candidate whose remove-edit is admissible and keeps
/// one ring, named by one of its open sides; else a decline, as failing the
/// recheck when some candidate was admissible, and as without candidate
/// when none was.
pub open spec fn remove_outcome(d: &Corridor, cands: Seq<Point>, arm: RepairArm, r: ArmOutcome) -> bool {
    &&& r matches ArmOutcome::Edit(e) ==> {
        &&& e.arm == arm
        &&& !e.drivable
        &&& e.recheck == scope_of(arm)
        &&& e.wall.cell == e.cell
        &&& boundary_side(d, e.cell, e.wall.side)
        &&& exists|i: int| 0 <= i < cands.len() && cands[i] == e.cell && good_remove(d, cands[i]) && forall|j: int|
            0 <= j < i ==> !good_remove(d, #[trigger] cands[j])
    }
    &&& r is Edit <==> exists|i: int| 0 <= i < cands.len() && good_remove(d, #[trigger] cands[i])
    &&& r == ArmOutcome::NoEdit(DeclineReason::RecheckFailed) <==> (exists|i: int| 0 <= i < cands.len() && removable(d, #[trigger] cands[i]))
        && !exists|i: int| 0 <= i < cands.len() && good_remove(d, #[trigger] cands[i])
    &&& r == ArmOutcome::NoEdit(DeclineReason::NoCandidate) <==> !exists|i: int| 0 <= i < cands.len() && removable(d, #[trigger] cands[i])
}

/// The remove search both remove arms share: tries `candidates` in order
/// and commits the first admissible remove-edit after which the corridor
/// is still one component enclosing one hole (see [`remove_outcome`]).
pub fn first_admissible_remove(d: &Corridor, candidates: &Vec<Point>, arm: RepairArm) -> (r: ArmOutcome)
    requires
        d.wf(),
        box_small(d),
        cells_fit(d),
    ensures
        remove_outcome(d, candidates@, arm, r),
{
    let mut admissible = false;
    let mut i: usize = 0;
    while i < candidates.len()
        invariant
            d.wf(),
            box_small(d),
            cells_fit(d),
            i <= candidates@.len(),
            forall|j: int| 0 <= j < i ==> !good_remove(d, #[trigger] candidates@[j]),
            admissible <==> exists|j: int| 0 <= j < i && removable(d, #[trigger] candidates@[j]),
        decreases candidates@.len() - i,
    {
        let c = candidates[i];
        match remove_edit_wall(d, c) {
            None => {},
            Some(w) => {
                admissible = true;
                let mut scratch = d.clone();
                proof {
                    assert(removable(d, c));
                    d.lemma_has_in_box(c);
                }
                scratch.set(c, false);
                proof {
                    assert(minus_cell(d, c, &scratch));
                    let d3 = choose|d2: Corridor| minus_cell(d, c, &d2);
                    lemma_components_by_cells(&scratch, &d3, true, false);
                    lemma_components_by_cells(&scratch, &d3, false, true);
                }
                if component_count(&scratch) == 1 && bounded_complement_components(&scratch) == 1 {
                    let r = ArmOutcome::Edit(
                        CommittedEdit { arm, wall: w, cell: c, drivable: false, recheck: recheck_scope(arm) },
                    );
                    proof {
                        assert(good_remove(d, candidates@[i as int]));
                    }
                    return r;
                }
            },
        }
        i = i + 1;
    }
    if admissible {
        ArmOutcome::NoEdit(DeclineReason::RecheckFailed)
    } else {
        ArmOutcome::NoEdit(DeclineReason::NoCandidate)
    }
}

/// `p` is a fine point of the `k×k` block of one of the first `n` coarse
/// cells of `f`.
pub open spec fn in_footprint(f: Seq<Point>, k: int, n: int, p: Point) -> bool {
    exists|i: int, dx: int, dy: int| 0 <= i < n && 0 <= dx < k && 0 <= dy < k && #[trigger] block_point_spec(f[i], k, dx, dy) == p
}

/// The drivable cells of the fine footprint of the coarse cells `f`.
pub open spec fn footprint_cells(d: &Corridor, f: Seq<Point>, k: int) -> Set<Point> {
    Set::new(|p: Point| d.has(p) && in_footprint(f, k, f.len() as int, p))
}

/// The drivable cells of the finger's fine footprint, ascending and each
/// once.
fn footprint_candidates(d: &Corridor, finger: &Vec<Point>, k: i32) -> (r: Vec<Point>)
    requires
        d.wf(),
    ensures
        r@ == sorted_points(footprint_cells(d, finger@, k as int)),
{
    let mut set: BTreeSet<Point> = BTreeSet::new();
    proof {
        lemma_point_order();
    }
    let mut i: usize = 0;
    while i < finger.len()
        invariant
            d.wf(),
            i <= finger@.len(),
            forall|p: Point| #[trigger] set@.contains(p) == (d.has(p) && in_footprint(finger@, k as int, i as int, p)),
        decreases finger@.len() - i,
    {
        let pts = block_points(finger[i], k);
        let mut j: usize = 0;
        while j < pts.len()
            invariant
                d.wf(),
                i < finger@.len(),
                k <= 0 ==> pts@.len() == 0,
                k > 0 ==> pts@.len() == k * k,
                forall|dx: int, dy: int|
                    0 <= dx < k && 0 <= dy < k ==> #[trigger] pts@[dy * k + dx] == block_point_spec(finger@[i as int], k as int, dx, dy),
                j <= pts@.len(),
                forall|p: Point| #[trigger] set@.contains(p) == (d.has(p) && (in_footprint(finger@, k as int, i as int, p) || exists|t: int|
                    0 <= t < j && pts@[t] == p)),
            decreases pts@.len() - j,
        {
            let p = pts[j];
            if d.contains(p) {
                set_add(&mut set, p);
            }
            proof {
                assert forall|q: Point| #[trigger] set@.contains(q) == (d.has(q) && (in_footprint(finger@, k as int, i as int, q) || exists|t: int|
                    0 <= t < j + 1 && pts@[t] == q)) by {
                    if exists|t: int| 0 <= t < j + 1 && pts@[t] == q {
                        let t = choose|t: int| 0 <= t < j + 1 && pts@[t] == q;
                        if t < j {
                            assert(exists|t2: int| 0 <= t2 < j && pts@[t2] == q);
                        }
                    }
                    if q == p {
                        assert(pts@[j as int] == q);
                    }
                }
            }
            j = j + 1;
        }
        proof {
            assert forall|p: Point| #[trigger] set@.contains(p) == (d.has(p) && in_footprint(finger@, k as int, i + 1, p)) by {
                if exists|t: int| 0 <= t < pts@.len() && pts@[t] == p {
                    let t = choose|t: int| 0 <= t < pts@.len() && pts@[t] == p;
                    let kk = k as int;
                    assert(kk > 0);
                    let dy = t / kk;
                    let dx = t % kk;
                    assert(dy * kk + dx == t) by (nonlinear_arith)
                        requires dy == t / kk, dx == t % kk, kk > 0;
                    assert(0 <= dx < kk && 0 <= dy < kk) by (nonlinear_arith)
                        requires dy == t / kk, dx == t % kk, kk > 0, 0 <= t < kk * kk;
                    assert(pts@[dy * kk + dx] == block_point_spec(finger@[i as int], kk, dx, dy));
                    assert(block_point_spec(finger@[i as int], kk, dx, dy) == p);
                }
                if in_footprint(finger@, k as int, i + 1, p) {
                    let (ii, dx, dy) = choose|ii: int, dx: int, dy: int| 0 <= ii < i + 1 && 0 <= dx < k && 0 <= dy < k && #[trigger] block_point_spec(
                        finger@[ii],
                        k as int,
                        dx,
                        dy,
                    ) == p;
                    if ii == i {
                        let kk = k as int;
                        assert(0 <= dy * kk + dx < kk * kk) by (nonlinear_arith)
                            requires 0 <= dx < kk, 0 <= dy < kk;
                        assert(pts@[dy * kk + dx] == p);
                    } else {
                        assert(in_footprint(finger@, k as int, i as int, p));
                    }
                }
                if in_footprint(finger@, k as int, i as int, p) {
                    let (ii, dx, dy) = choose|ii: int, dx: int, dy: int| 0 <= ii < i && 0 <= dx < k && 0 <= dy < k && #[trigger] block_point_spec(
                        finger@[ii],
                        k as int,
                        dx,
                        dy,
                    ) == p;
                    assert(in_footprint(finger@, k as int, i + 1, p));
                }
            }
        }
        i = i + 1;
    }
    let v = set_to_vec(&set);
    proof {
        assert(set@ =~= footprint_cells(d, finger@, k as int));
    }
    v
}

/// What the lost-hairpin arm answers for the finger tipped at `tip` of
/// the coarse hole `hole` at block size `k` (see [`nudge_finger`]).
pub open spec fn nudge_outcome(d: &Corridor, hole: Set<Point>, k: int, tip: Point, r: ArmOutcome) -> bool {
    &&& !(hole.contains(tip) && degree_in(hole, tip) == 1) ==> r == ArmOutcome::NoEdit(DeclineReason::StalePayload)
    &&& hole.contains(tip) && degree_in(hole, tip) == 1 ==> exists|f: Seq<Point>| #[trigger] is_finger_walk(hole, tip, f)
    &&& forall|f: Seq<Point>|
        hole.contains(tip) && degree_in(hole, tip) == 1 && #[trigger] is_finger_walk(hole, tip, f) ==> if footprint_drivable(
            f,
            d,
            k,
        ) {
            remove_outcome(d, sorted_points(footprint_cells(d, f, k)), RepairArm::NudgeFinger, r)
        } else {
            r == ArmOutcome::NoEdit(DeclineReason::StalePayload)
        }
}

/// The lost-hairpin arm: re-validates that `tip` is still the tip of an
/// infield finger whose fine footprint is entirely drivable (its strip was
/// filled in), else declines as stale; then tries the footprint's drivable
/// cells, ascending, with [`first_admissible_remove`].
pub fn nudge_finger(d: &Corridor, skel: &CoarseSkeleton, k: i32, tip: Point) -> (r: ArmOutcome)
    requires
        d.wf(),
        box_small(d),
        cells_fit(d),
        forall|c: Point| #[trigger] skel.hole@.contains(c) ==> interior_point(c),
    ensures
        nudge_outcome(d, skel.hole@, k as int, tip, r),
{
    broadcast use vstd::std_specs::btree::group_btree_axioms;
    let fingers = infield_fingers(skel);
    proof {
        lemma_point_order();
    }
    match fingers.get(&tip) {
        None => ArmOutcome::NoEdit(DeclineReason::StalePayload),
        Some(finger) => {
            proof {
                assert(fingers@.contains_key(tip) && fingers@[tip] == *finger);
                assert forall|f: Seq<Point>| #[trigger] is_finger_walk(skel.hole@, tip, f) implies f == finger@ by {
                    lemma_finger_walk_unique(skel.hole@, tip, f, finger@);
                }
            }
            if !absorbed(finger, d, k) {
                return ArmOutcome::NoEdit(DeclineReason::StalePayload);
            }
            let cands = footprint_candidates(d, finger, k);
            first_admissible_remove(d, &cands, RepairArm::NudgeFinger)
        },
    }
}

/// `s` is a 4-connected walk through cells of `cells`.
pub open spec fn walk_in(cells: Set<Point>, s: Seq<Point>) -> bool {
    &&& s.len() >= 1
    &&& forall|i: int| 0 <= i < s.len() ==> cells.contains(#[trigger] s[i])
    &&& forall|i: int| 0 <= i < s.len() - 1 ==> adjacent4(#[trigger] s[i], s[i + 1])
}

/// The 4-connected component of `a` within `cells`.
pub open spec fn component_in(cells: Set<Point>, a: Point) -> Set<Point> {
    Set::new(|q: Point| exists|s: Seq<Point>| #[trigger] walk_in(cells, s) && s[0] == a && s.last() == q)
}

/// The drivable cells of `d` that lie in `mask`.
pub open spec fn masked_cells(d: &Corridor, mask: Set<Point>) -> Set<Point> {
    Set::new(|p: Point| d.has(p) && mask.contains(p))
}

/// The corridor over `d`'s box whose drivable cells are those of `d` in
/// `mask`.
fn masked_corridor(d: &Corridor, mask: &BTreeSet<Point>) -> (r: Corridor)
    requires
        d.wf(),
    ensures
        r.wf(),
        r.same_box(d),
        forall|q: Point| #[trigger] r.has(q) == (d.has(q) && mask@.contains(q)),
{
    let mut r = Corridor::new(d.origin(), d.width(), d.height());
    let v = set_to_vec(mask);
    let mut i: usize = 0;
    while i < v.len()
        invariant
            d.wf(),
            r.wf(),
            r.same_box(d),
            i <= v@.len(),
            v@.to_set() == mask@,
            forall|q: Point| #[trigger] r.has(q) == (d.has(q) && exists|j: int| 0 <= j < i && v@[j] == q),
        decreases v@.len() - i,
    {
        let p = v[i];
        if d.contains(p) {
            proof {
                d.lemma_has_in_box(p);
            }
            r.set(p, true);
        }
        proof {
            assert forall|q: Point| #[trigger] r.has(q) == (d.has(q) && exists|j: int| 0 <= j < i + 1 && v@[j] == q) by {
                if exists|j: int| 0 <= j < i + 1 && v@[j] == q {
                    let j = choose|j: int| 0 <= j < i + 1 && v@[j] == q;
                    if j < i {
                        assert(exists|j2: int| 0 <= j2 < i && v@[j2] == q);
                    }
                }
                if q == p {
                    assert(v@[i as int] == q);
                }
            }
        }
        i = i + 1;
    }
    proof {
        assert forall|q: Point| #[trigger] r.has(q) == (d.has(q) && mask@.contains(q)) by {
            if mask@.contains(q) {
                assert(v@.to_set().contains(q));
            }
            if exists|j: int| 0 <= j < v@.len() && v@[j] == q {
                let j = choose|j: int| 0 <= j < v@.len() && v@[j] == q;
                assert(v@.to_set().contains(v@[j]));
            }
        }
    }
    r
}

/// A corridor's drivable walks are the walks through its drivable cells.
proof fn lemma_linked_is_component(d2: &Corridor, cells: Set<Point>, a: Point, q: Point)
    requires
        forall|p: Point| #[trigger] d2.has(p) == cells.contains(p),
    ensures
        linked(d2, true, a, q) == component_in(cells, a).contains(q),
{
    assert forall|s: Seq<Point>| #[trigger] is_path(d2, true, s) == walk_in(cells, s) by {
        if walk_in(cells, s) {
            assert forall|i: int| 0 <= i < s.len() implies member(d2, true, #[trigger] s[i]) by {
                assert(cells.contains(s[i]));
                d2.lemma_has_in_box(s[i]);
            }
        }
        if is_path(d2, true, s) {
            assert forall|i: int| 0 <= i < s.len() implies cells.contains(#[trigger] s[i]) by {
                assert(member(d2, true, s[i]));
            }
        }
    }
    if linked(d2, true, a, q) {
        let s = choose|s: Seq<Point>| #[trigger] is_path(d2, true, s) && s[0] == a && s.last() == q;
        assert(walk_in(cells, s));
    }
    if component_in(cells, a).contains(q) {
        let s = choose|s: Seq<Point>| #[trigger] walk_in(cells, s) && s[0] == a && s.last() == q;
        assert(is_path(d2, true, s));
    }
}

/// What the arms-merging arm answers for `bridge`, with the hole mask the
/// `k×k` blocks of the coarse hole `hole` (see [`trim_arm_wall`]).
pub open spec fn trim_outcome(d: &Corridor, hole: Set<Point>, k: int, bridge: Point, r: ArmOutcome) -> bool {
    &&& !(d.has(bridge) && blocks_of(hole, k).contains(bridge)) ==> r == ArmOutcome::NoEdit(DeclineReason::StalePayload)
    &&& d.has(bridge) && blocks_of(hole, k).contains(bridge) ==> remove_outcome(
        d,
        sorted_points(component_in(masked_cells(d, blocks_of(hole, k)), bridge)),
        RepairArm::TrimArmWall,
        r,
    )
}

/// The arms-merging arm: re-validates that `bridge` is still a drivable
/// cell of the hole mask (the `k×k` blocks of the coarse hole), else
/// declines as stale; then takes the 4-connected component of `bridge`
/// among the drivable cells of the mask and tries its cells, ascending,
/// with [`first_admissible_remove`].
pub fn trim_arm_wall(d: &Corridor, skel: &CoarseSkeleton, k: i32, bridge: Point) -> (r: ArmOutcome)
    requires
        d.wf(),
        box_small(d),
        cells_fit(d),
        all_coarse_ok(skel.hole@),
        block_size_ok(k as int),
    ensures
        trim_outcome(d, skel.hole@, k as int, bridge, r),
{
    let h = hole_mask(&skel.hole, k);
    if !d.contains(bridge) || !set_has(&h, bridge) {
        return ArmOutcome::NoEdit(DeclineReason::StalePayload);
    }
    let ghost cells = masked_cells(d, h@);
    let d2 = masked_corridor(d, &h);
    let mut marks = Corridor::new(d.origin(), d.width(), d.height());
    proof {
        d.lemma_has_in_box(bridge);
        assert(member(&d2, true, bridge));
    }
    let comp = flood(&d2, true, &mut marks, bridge);
    let mut set: BTreeSet<Point> = BTreeSet::new();
    let mut i: usize = 0;
    while i < comp.len()
        invariant
            i <= comp@.len(),
            forall|q: Point| #[trigger] set@.contains(q) == exists|j: int| 0 <= j < i && comp@[j] == q,
        decreases comp@.len() - i,
    {
        set_add(&mut set, comp[i]);
        proof {
            assert forall|q: Point| #[trigger] set@.contains(q) == exists|j: int| 0 <= j < i + 1 && comp@[j] == q by {
                if exists|j: int| 0 <= j < i + 1 && comp@[j] == q {
                    let j = choose|j: int| 0 <= j < i + 1 && comp@[j] == q;
                    if j < i {
                        assert(exists|j2: int| 0 <= j2 < i && comp@[j2] == q);
                    }
                }
                if q == comp@[i as int] {
                    assert(comp@[i as int] == q);
                }
            }
        }
        i = i + 1;
    }
    let cands = set_to_vec(&set);
    proof {
        assert forall|p: Point| #[trigger] d2.has(p) == cells.contains(p) by {}
        assert forall|q: Point| #[trigger] set@.contains(q) == component_in(cells, bridge).contains(q) by {
            lemma_linked_is_component(&d2, cells, bridge, q);
            if comp@.contains(q) {
                let j = choose|j: int| 0 <= j < comp@.len() && comp@[j] == q;
            }
            if set@.contains(q) {
                let j = choose|j: int| 0 <= j < comp@.len() && comp@[j] == q;
                assert(comp@.contains(comp@[j]));
            }
        }
        assert(set@ =~= component_in(cells, bridge));
    }
    first_admissible_remove(d, &cands, RepairArm::TrimArmWall)
}

/// The wall on side `side` of the cell behind `q`, the cell from which
/// `side` leads to `q`, when that cell is an `i32` point.
pub open spec fn wall_into(q: Point, side: Side) -> Option<Wall> {
    let x = q.0 - side_delta(side).0;
    let y = q.1 - side_delta(side).1;
    if i32::MIN <= x <= i32::MAX && i32::MIN <= y <= i32::MAX {
        Some(Wall { cell: (x as i32, y as i32), side })
    } else {
        None
    }
}

/// The wall on side `side` leading into `q` belongs to a drivable cell.
pub open spec fn drivable_wall_into(d: &Corridor, q: Point, side: Side) -> bool {
    wall_into(q, side) matches Some(w) && d.has(w.cell)
}

/// An add-edit on `q` is admissible: `q` lies in the box, is not drivable,
/// and has a drivable 4-neighbor.
pub open spec fn addable(d: &Corridor, q: Point) -> bool {
    &&& d.in_box(q)
    &&& !d.has(q)
    &&& drivable_wall_into(d, q, Side::East) || drivable_wall_into(d, q, Side::West) || drivable_wall_into(
        d,
        q,
        Side::North,
    ) || drivable_wall_into(d, q, Side::South)
}

/// The wall on side `side` leading into `q`, when its cell is drivable.
fn wall_into_drivable(d: &Corridor, q: Point, side: Side) -> (r: Option<Wall>)
    requires
        d.wf(),
    ensures
        r is Some <==> drivable_wall_into(d, q, side),
        r matches Some(w) ==> wall_into(q, side) == Some(w),
{
    let (dx, dy) = side.delta();
    match (q.0.checked_sub(dx), q.1.checked_sub(dy)) {
        (Some(x), Some(y)) => {
            if d.contains((x, y)) {
                Some(Wall { cell: (x, y), side })
            } else {
                None
            }
        },
        _ => None,
    }
}

/// The wall naming the add-edit that makes `q` drivable: the side of one
/// of `q`'s drivable 4-neighbors that faces `q`; `None` when `q` lies
/// outside the box, is already drivable, or has no drivable 4-neighbor. Of
/// several such walls the first by east, west, north, south is named; the
/// contract says only that it leads into `q` from a drivable cell.
pub fn add_edit_wall(d: &Corridor, q: Point) -> (r: Option<Wall>)
    requires
        d.wf(),
    ensures
        r is None <==> !addable(d, q),
        r matches Some(w) ==> d.has(w.cell) && across(w) == Some(q) && wall_into(q, w.side) == Some(w),
{
    if !d.box_contains(q) || d.contains(q) {
        return None;
    }
    let sides = [Side::East, Side::West, Side::North, Side::South];
    let mut i: usize = 0;
    while i < 4
        invariant
            0 <= i <= 4,
            sides@ == seq![Side::East, Side::West, Side::North, Side::South],
            d.wf(),
            d.in_box(q),
            !d.has(q),
            forall|j: int| 0 <= j < i ==> !drivable_wall_into(d, q, #[trigger] sides@[j]),
        decreases 4 - i,
    {
        if let Some(w) = wall_into_drivable(d, q, sides[i]) {
            proof {
                assert(drivable_wall_into(d, q, sides@[i as int]));
                assert(sides@[i as int] == Side::East || sides@[i as int] == Side::West || sides@[i as int] == Side::North
                    || sides@[i as int] == Side::South);
                assert(across(w) == Some(q));
            }
            return Some(w);
        }
        i = i + 1;
    }
    proof {
        assert(!drivable_wall_into(d, q, sides@[0]) && !drivable_wall_into(d, q, sides@[1]));
        assert(!drivable_wall_into(d, q, sides@[2]) && !drivable_wall_into(d, q, sides@[3]));
    }
    None
}

/// The cell across side `side` of `t` is not drivable (or lies beyond the
/// `i32` range).
pub open spec fn open_toward(d: &Corridor, t: Point, side: Side) -> bool {
    boundary_side(d, t, side)
}

/// The cell across side `side` of `t` lies in the box.
pub open spec fn in_box_toward(d: &Corridor, t: Point, side: Side) -> bool {
    across(Wall { cell: t, side }) matches Some(n) && d.in_box(n)
}

/// Whether `t`'s sides open toward non-drivable cells number exactly one,
/// that one is `side`, and the cell across it lies in the box.
pub open spec fn only_open_side(d: &Corridor, t: Point, side: Side) -> bool {
    &&& open_toward(d, t, side)
    &&& in_box_toward(d, t, side)
    &&& (side == Side::East || !open_toward(d, t, Side::East))
    &&& (side == Side::West || !open_toward(d, t, Side::West))
    &&& (side == Side::North || !open_toward(d, t, Side::North))
    &&& (side == Side::South || !open_toward(d, t, Side::South))
}

/// The concave-chord-cut guard on `t`: exactly one of its 4-neighbors is
/// not drivable, and that one lies in the box, so filling `t` keeps the
/// hole it borders.
pub open spec fn concave_chord_cut(d: &Corridor, t: Point) -> bool {
    only_open_side(d, t, Side::East) || only_open_side(d, t, Side::West) || only_open_side(d, t, Side::North)
        || only_open_side(d, t, Side::South)
}

/// Whether `t` passes the concave-chord-cut guard.
pub fn is_concave_chord_cut(d: &Corridor, t: Point) -> (r: bool)
    requires
        d.wf(),
    ensures
        r == concave_chord_cut(d, t),
{
    let e = open_side(d, t, Side::East);
    let w = open_side(d, t, Side::West);
    let n = open_side(d, t, Side::North);
    let s = open_side(d, t, Side::South);
    let count: u32 = (if e { 1 } else { 0 }) + (if w { 1 } else { 0 }) + (if n { 1 } else { 0 }) + (if s { 1 } else { 0 });
    if count != 1 {
        return false;
    }
    let side = if e {
        Side::East
    } else if w {
        Side::West
    } else if n {
        Side::North
    } else {
        Side::South
    };
    match wall_neighbor(Wall { cell: t, side }) {
        Some(nb) => d.box_contains(nb),
        None => false,
    }
}

/// What the concave-chord-cut arm answers for `tooth` (see
/// [`fill_inner_tooth`]).
pub open spec fn tooth_outcome(d: &Corridor, tooth: Point, r: ArmOutcome) -> bool {
    &&& d.has(tooth) || !concave_chord_cut(d, tooth) ==> r == ArmOutcome::NoEdit(DeclineReason::StalePayload)
    &&& !d.has(tooth) && concave_chord_cut(d, tooth) && !addable(d, tooth) ==> r == ArmOutcome::NoEdit(
        DeclineReason::NoCandidate,
    )
    &&& !d.has(tooth) && concave_chord_cut(d, tooth) && addable(d, tooth) ==> (r matches ArmOutcome::Edit(e) && e.arm
        == RepairArm::FillInnerTooth && e.drivable && e.cell == tooth && e.recheck == scope_of(RepairArm::FillInnerTooth)
        && d.has(e.wall.cell) && across(e.wall) == Some(tooth))
}

/// The concave-chord-cut arm: re-validates that `tooth` is still not
/// drivable and passes the guard (see [`concave_chord_cut`]), else
/// declines as stale; then fills it through the wall of one of its
/// drivable 4-neighbors. The guard alone keeps the hole, so no recheck
/// runs here.
pub fn fill_inner_tooth(d: &Corridor, tooth: Point) -> (r: ArmOutcome)
    requires
        d.wf(),
    ensures
        tooth_outcome(d, tooth, r),
{
    if d.contains(tooth) || !is_concave_chord_cut(d, tooth) {
        return ArmOutcome::NoEdit(DeclineReason::StalePayload);
    }
    match add_edit_wall(d, tooth) {
        None => ArmOutcome::NoEdit(DeclineReason::NoCandidate),
        Some(w) => ArmOutcome::Edit(
            CommittedEdit {
                arm: RepairArm::FillInnerTooth,
                wall: w,
                cell: tooth,
                drivable: true,
                recheck: recheck_scope(RepairArm::FillInnerTooth),
            },
        ),
    }
}

/// An edit of `r` flips its cell in `d`.
pub open spec fn flips_in(d: &Corridor, r: ArmOutcome) -> bool {
    r matches ArmOutcome::Edit(e) ==> d.in_box(e.cell) && d.has(e.cell) != e.drivable
}

/// A remove search commits only drivable cells, making them not drivable.
proof fn lemma_remove_flips(d: &Corridor, cands: Seq<Point>, arm: RepairArm, r: ArmOutcome)
    requires
        remove_outcome(d, cands, arm, r),
    ensures
        flips_in(d, r),
{
    if let ArmOutcome::Edit(e) = r {
        let i = choose|i: int| 0 <= i < cands.len() && cands[i] == e.cell && good_remove(d, cands[i]) && forall|j: int|
            0 <= j < i ==> !good_remove(d, #[trigger] cands[j]);
        assert(d.has(e.cell));
        d.lemma_has_in_box(e.cell);
    }
}

/// Every arm that stands on the corridor flips the cell it edits.
proof fn lemma_arms_flip(d: &Corridor, hole: Set<Point>, k: int, label: DispatchLabel, o: ArmOutcome)
    requires
        match label {
            DispatchLabel::Issue(issue) => match issue {
                Issue::LostHairpin { tip } => nudge_outcome(d, hole, k, tip, o),
                Issue::ArmsMerging { bridge } => trim_outcome(d, hole, k, bridge, o),
                Issue::ConcaveChordCut { tooth } => tooth_outcome(d, tooth, o),
                Issue::Narrow { center, axis, .. } | Issue::NarrowSf { center, axis, .. } => push_outcome(d, center, axis, o),
                _ => !(o is Edit),
            },
            DispatchLabel::DynamicStall => !(o is Edit),
        },
    ensures
        flips_in(d, o),
{
    match label {
        DispatchLabel::Issue(issue) => match issue {
            Issue::LostHairpin { tip } => {
                if hole.contains(tip) && degree_in(hole, tip) == 1 {
                    let f = choose|f: Seq<Point>| #[trigger] is_finger_walk(hole, tip, f);
                    if footprint_drivable(f, d, k) {
                        lemma_remove_flips(d, sorted_points(footprint_cells(d, f, k)), RepairArm::NudgeFinger, o);
                    }
                }
            },
            Issue::ArmsMerging { bridge } => {
                if d.has(bridge) && blocks_of(hole, k).contains(bridge) {
                    lemma_remove_flips(
                        d,
                        sorted_points(component_in(masked_cells(d, blocks_of(hole, k)), bridge)),
                        RepairArm::TrimArmWall,
                        o,
                    );
                }
            },
            _ => {},
        },
        DispatchLabel::DynamicStall => {},
    }
}

/// Dispatches `label` to the arm that stands on the working corridor
/// alone: the two topology labels decline as not repairable, and each
/// other static label runs its arm against `d` (the skeleton's hole and
/// the block size `k` feed the two remove arms). `None` for the run-out
/// label and the dynamic stall, whose arms need the oracle's output.
pub fn dispatch_corridor_arm(d: &Corridor, skel: &CoarseSkeleton, k: i32, label: DispatchLabel) -> (r: Option<ArmOutcome>)
    requires
        d.wf(),
        box_small(d),
        cells_fit(d),
        all_coarse_ok(skel.hole@),
        block_size_ok(k as int),
    ensures
        match label {
            DispatchLabel::Issue(issue) => match issue {
                Issue::Disconnected | Issue::BadTopology => r == Some(ArmOutcome::NoEdit(DeclineReason::NotRepairable)),
                Issue::LostHairpin { tip } => r matches Some(o) && nudge_outcome(d, skel.hole@, k as int, tip, o),
                Issue::ArmsMerging { bridge } => r matches Some(o) && trim_outcome(d, skel.hole@, k as int, bridge, o),
                Issue::ConcaveChordCut { tooth } => r matches Some(o) && tooth_outcome(d, tooth, o),
                Issue::Narrow { center, axis, .. } | Issue::NarrowSf { center, axis, .. } => r matches Some(o)
                    && push_outcome(d, center, axis, o),
                Issue::NoBraking { .. } => r is None,
            },
            DispatchLabel::DynamicStall => r is None,
        },
        r matches Some(o) ==> flips_in(d, o),
{
    proof {
        assert forall|c: Point| #[trigger] skel.hole@.contains(c) implies interior_point(c) by {
            assert(crate::raster::coarse_ok(c));
        }
    }
    let r = match label {
        DispatchLabel::Issue(issue) => match issue {
            Issue::Disconnected | Issue::BadTopology => Some(ArmOutcome::NoEdit(DeclineReason::NotRepairable)),
            Issue::LostHairpin { tip } => Some(nudge_finger(d, skel, k, tip)),
            Issue::ArmsMerging { bridge } => Some(trim_arm_wall(d, skel, k, bridge)),
            Issue::ConcaveChordCut { tooth } => Some(fill_inner_tooth(d, tooth)),
            Issue::Narrow { center, axis, .. } => Some(push_outer_wall_out(d, center, axis)),
            Issue::NarrowSf { center, axis, .. } => Some(push_outer_wall_out(d, center, axis)),
            Issue::NoBraking { .. } => None,
        },
        DispatchLabel::DynamicStall => None,
    };
    proof {
        if let Some(o) = r {
            lemma_arms_flip(d, skel.hole@, k as int, label, o);
        }
    }
    r
}

} // verus!
