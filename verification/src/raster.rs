//! Rasterization of the coarse ring to the fine corridor `D`: every coarse
//! ring cell becomes a solid `k×k` block, abrupt outfield wall steps are
//! tapered into 1-Lipschitz ramps, and spurious enclosed pockets are
//! absorbed.

use vstd::prelude::*;
use std::collections::BTreeSet;
use crate::corridor::Corridor;
use crate::flood::{flood, is_path, lemma_linked_refl, lemma_linked_symm, lemma_linked_trans, linked, member, open_cell};
use crate::geom::{adjacent4, Point, Side, sat, sat_add, sat_mul, sat_sub};
use crate::components::{component_firsts, enclosed};
use crate::topology::{lemma_rasterized_topology, sealed_infield};
use crate::skeleton::{skeleton_built, CoarseSkeleton};
use crate::points::{bounds, insert_all, is_max_x, is_max_y, is_min_x, is_min_y, set_to_vec};

verus! {

broadcast use crate::corridor::Corridor::lemma_has_in_box;

/// The largest coarse coordinate magnitude (and block size) the rasterizer
/// accepts, `2^14`. It is set by the taper's sentinel [`NEG_INF`]
/// (`i32::MIN / 2`): the taper needs every fine coordinate, and the box's
/// sides, within `2^30` of the origin, and a block's fine corner `c·k`
/// must be exact rather than saturated for the block to be the `k×k`
/// patch. With both factors at most `2^14`, every fine coordinate lies
/// within `2^28 + 2^14 + 1` (see [`lemma_rasterized_box`]), inside the
/// sentinel's range with room for the start/finish rows. A skeleton
/// from Ф1 lies within 80 cells of the origin, so the coarse bound never
/// binds there; a block size past it gives a ring four coarse cells
/// across a corridor of more than `2^32` cells.
pub const COARSE_LIMIT: i32 = 16384;

/// Whether coarse cell `c` lies in the rasterizer's domain.
pub open spec fn coarse_ok(c: Point) -> bool {
    -COARSE_LIMIT <= c.0 <= COARSE_LIMIT && -COARSE_LIMIT <= c.1 <= COARSE_LIMIT
}

/// Whether `k` is an admissible block size.
pub open spec fn block_size_ok(k: int) -> bool {
    1 <= k <= COARSE_LIMIT
}

/// Whether every cell of `s` lies in the rasterizer's domain.
pub open spec fn all_coarse_ok(s: Set<Point>) -> bool {
    forall|c: Point| s.contains(c) ==> #[trigger] coarse_ok(c)
}

/// Whether fine point `p` lies in coarse block `c`'s `k×k` patch.
pub open spec fn in_block(p: Point, c: Point, k: int) -> bool {
    c.0 * k <= p.0 < c.0 * k + k && c.1 * k <= p.1 < c.1 * k + k
}

/// The fine points of the blocks of every coarse cell of `s`.
pub open spec fn blocks_of(s: Set<Point>, k: int) -> Set<Point> {
    Set::new(|p: Point| exists|c: Point| s.contains(c) && #[trigger] in_block(p, c, k))
}

/// The fine point at offset `(dx, dy)` from block `c`'s origin, each step
/// saturating.
pub open spec fn block_point_spec(c: Point, k: int, dx: int, dy: int) -> Point {
    (sat(sat(c.0 * k) + dx) as i32, sat(sat(c.1 * k) + dy) as i32)
}

/// The fine-point origin of coarse block `c`'s `k×k` patch — `(c.x·k, c.y·k)`,
/// saturating.
pub fn block_origin(c: Point, k: i32) -> (r: Point)
    ensures
        r.0 == sat(c.0 * k),
        r.1 == sat(c.1 * k),
{
    (sat_mul(c.0, k), sat_mul(c.1, k))
}

/// Every fine point of coarse block `c`'s `k×k` patch, row-major (empty for
/// `k <= 0`).
pub fn block_points(c: Point, k: i32) -> (r: Vec<Point>)
    ensures
        k <= 0 ==> r@.len() == 0,
        k > 0 ==> r@.len() == k * k,
        forall|dx: int, dy: int|
            0 <= dx < k && 0 <= dy < k ==> #[trigger] r@[dy * k + dx] == block_point_spec(c, k as int, dx, dy),
{
    let origin = block_origin(c, k);
    let mut r: Vec<Point> = Vec::new();
    if k <= 0 {
        return r;
    }
    let mut dy: i32 = 0;
    while dy < k
        invariant
            0 < k,
            0 <= dy <= k,
            origin.0 == sat(c.0 * k),
            origin.1 == sat(c.1 * k),
            r@.len() == dy * k,
            forall|ex: int, ey: int|
                0 <= ex < k && 0 <= ey < dy ==> #[trigger] r@[ey * k + ex] == block_point_spec(c, k as int, ex, ey),
        decreases k - dy,
    {
        let mut dx: i32 = 0;
        while dx < k
            invariant
                0 < k,
                0 <= dy < k,
                0 <= dx <= k,
                origin.0 == sat(c.0 * k),
                origin.1 == sat(c.1 * k),
                r@.len() == dy * k + dx,
                forall|ex: int, ey: int|
                    0 <= ex < k && 0 <= ey < dy ==> #[trigger] r@[ey * k + ex] == block_point_spec(c, k as int, ex, ey),
                forall|ex: int| 0 <= ex < dx ==> #[trigger] r@[dy * k + ex] == block_point_spec(c, k as int, ex, dy as int),
            decreases k - dx,
        {
            r.push((sat_add(origin.0, dx), sat_add(origin.1, dy)));
            proof {
                assert forall|ex: int, ey: int|
                    0 <= ex < k && 0 <= ey < dy implies #[trigger] r@[ey * k + ex] == block_point_spec(c, k as int, ex, ey) by {
                    assert(ey * k + ex < dy * k) by (nonlinear_arith)
                        requires 0 <= ex < k, 0 <= ey < dy;
                }
            }
            dx = dx + 1;
        }
        proof {
            assert(r@.len() == (dy + 1) * k) by (nonlinear_arith)
                requires r@.len() == dy * k + k;
            assert forall|ex: int, ey: int|
                0 <= ex < k && 0 <= ey < dy + 1 implies #[trigger] r@[ey * k + ex] == block_point_spec(c, k as int, ex, ey) by {
                if ey == dy {
                }
            }
        }
        dy = dy + 1;
    }
    r
}

/// In the domain, coarse coordinates scale to fine ones without saturating.
pub proof fn lemma_scale_bounds(v: int, k: int)
    requires
        -COARSE_LIMIT <= v <= COARSE_LIMIT,
        block_size_ok(k),
    ensures
        -0x1000_0000 <= v * k <= 0x1000_0000,
        -0x1000_0000 <= (v + 1) * k <= 0x1000_4000,
        (v + 1) * k == v * k + k,
{
    assert(-0x1000_0000 <= v * k <= 0x1000_0000) by (nonlinear_arith)
        requires -16384 <= v <= 16384, 1 <= k <= 16384;
    assert((v + 1) * k == v * k + k) by (nonlinear_arith);
}

/// In the domain, the block offsets are exact and enumerate the block.
pub proof fn lemma_block_point_exact(c: Point, k: int, dx: int, dy: int)
    requires
        coarse_ok(c),
        block_size_ok(k),
        0 <= dx < k,
        0 <= dy < k,
    ensures
        block_point_spec(c, k, dx, dy) == ((c.0 * k + dx) as i32, (c.1 * k + dy) as i32),
        in_block(block_point_spec(c, k, dx, dy), c, k),
{
    lemma_scale_bounds(c.0 as int, k);
    lemma_scale_bounds(c.1 as int, k);
}

/// In the domain, the points of `block_points(c, k)` are exactly `c`'s block.
pub proof fn lemma_block_points_cover(c: Point, k: int, r: Seq<Point>)
    requires
        coarse_ok(c),
        block_size_ok(k),
        r.len() == k * k,
        forall|dx: int, dy: int|
            0 <= dx < k && 0 <= dy < k ==> #[trigger] r[dy * k + dx] == block_point_spec(c, k, dx, dy),
    ensures
        forall|p: Point| in_block(p, c, k) ==> r.contains(p),
        forall|i: int| 0 <= i < r.len() ==> #[trigger] in_block(r[i], c, k),
{
    lemma_scale_bounds(c.0 as int, k);
    lemma_scale_bounds(c.1 as int, k);
    assert forall|p: Point| in_block(p, c, k) implies r.contains(p) by {
        let dx = p.0 - c.0 * k;
        let dy = p.1 - c.1 * k;
        lemma_block_point_exact(c, k, dx, dy);
        assert(0 <= dy * k + dx < k * k) by (nonlinear_arith)
            requires 0 <= dx < k, 0 <= dy < k;
        assert(r[dy * k + dx] == p);
    }
    assert forall|i: int| 0 <= i < r.len() implies #[trigger] in_block(r[i], c, k) by {
        let dy = i / k;
        let dx = i % k;
        assert(i == dy * k + dx && 0 <= dx < k && 0 <= dy < k) by (nonlinear_arith)
            requires 0 <= i < k * k, 1 <= k, dy == i / k, dx == i % k;
        lemma_block_point_exact(c, k, dx, dy);
    }
}

/// `d`'s box lies strictly inside the `i32` range: coordinates one step
/// outside it never saturate.
pub open spec fn box_small(d: &Corridor) -> bool {
    i32::MIN < d.ox() && d.ox() + d.w() < i32::MAX && i32::MIN < d.oy() && d.oy() + d.h() < i32::MAX
}

/// `d`'s box lies strictly above the envelope's "no top" sentinel
/// [`NEG_INF`] in both facings (every coordinate `v` has `NEG_INF < v` and
/// `NEG_INF < -v`), and each side is at most `-NEG_INF` cells long, so an
/// envelope entry derived from the sentinel stays below every coordinate
/// and its negation fits `i32`.
pub open spec fn taper_range(d: &Corridor) -> bool {
    &&& NEG_INF < d.ox() && d.ox() + d.w() - 1 <= -(NEG_INF as int)
    &&& NEG_INF < d.oy() && d.oy() + d.h() - 1 <= -(NEG_INF as int)
    &&& d.w() <= -(NEG_INF as int) && d.h() <= -(NEG_INF as int)
}

/// `d`'s box is the fine bounding box of `ring`'s blocks, padded by one
/// fine cell on every side (a `1×1` box at the origin for an empty ring).
pub open spec fn ring_box_ok(d: &Corridor, ring: Set<Point>, k: int) -> bool {
    if ring.is_empty() {
        d.ox() == 0 && d.oy() == 0 && d.w() == 1 && d.h() == 1
    } else {
        exists|mx: int, bx: int, my: int, by: int|
            #![trigger is_min_x(ring, mx), is_max_x(ring, bx), is_min_y(ring, my), is_max_y(ring, by)]
            is_min_x(ring, mx) && is_max_x(ring, bx) && is_min_y(ring, my) && is_max_y(ring, by)
                && d.ox() == mx * k - 1 && d.oy() == my * k - 1 && d.ox() + d.w() == (bx + 1) * k + 1
                && d.oy() + d.h() == (by + 1) * k + 1
    }
}

/// An empty corridor over `ring`'s coarse bounding box, scaled by `k` and
/// padded by one fine cell on every side; an empty `ring` yields a `1×1`
/// corridor at the origin.
pub fn corridor_for_ring(ring: &BTreeSet<Point>, k: i32) -> (d: Corridor)
    requires
        all_coarse_ok(ring@),
        block_size_ok(k as int),
    ensures
        d.wf(),
        ring_box_ok(&d, ring@, k as int),
        forall|p: Point| !#[trigger] d.has(p),
        forall|c: Point, p: Point| ring@.contains(c) && #[trigger] in_block(p, c, k as int) ==> d.in_box(p),
        box_small(&d),
        taper_range(&d),
{
    match bounds(ring) {
        None => {
            Corridor::new((0, 0), 1, 1)
        },
        Some((min_x, max_x, min_y, max_y)) => {
            proof {
                let c0 = choose|p: Point| ring@.contains(p) && p.0 == min_x;
                let c1 = choose|p: Point| ring@.contains(p) && p.0 == max_x;
                let c2 = choose|p: Point| ring@.contains(p) && p.1 == min_y;
                let c3 = choose|p: Point| ring@.contains(p) && p.1 == max_y;
                assert(coarse_ok(c0) && coarse_ok(c1) && coarse_ok(c2) && coarse_ok(c3));
                lemma_scale_bounds(min_x as int, k as int);
                lemma_scale_bounds(max_x as int, k as int);
                lemma_scale_bounds(min_y as int, k as int);
                lemma_scale_bounds(max_y as int, k as int);
                assert(min_x * k <= max_x * k) by (nonlinear_arith)
                    requires min_x <= max_x, 1 <= k;
                assert(min_y * k <= max_y * k) by (nonlinear_arith)
                    requires min_y <= max_y, 1 <= k;
            }
            let fine_min_x = sat_sub(sat_mul(min_x, k), 1);
            let fine_min_y = sat_sub(sat_mul(min_y, k), 1);
            let fine_max_x = sat_add(sat_mul(sat_add(max_x, 1), k), 1);
            let fine_max_y = sat_add(sat_mul(sat_add(max_y, 1), k), 1);
            let width = (fine_max_x as i64 - fine_min_x as i64) as usize;
            let height = (fine_max_y as i64 - fine_min_y as i64) as usize;
            let d = Corridor::new((fine_min_x, fine_min_y), width, height);
            proof {
                assert(is_min_x(ring@, min_x as int) && is_max_x(ring@, max_x as int) && is_min_y(ring@, min_y as int) && is_max_y(ring@, max_y as int));
                assert forall|c: Point, p: Point| ring@.contains(c) && #[trigger] in_block(p, c, k as int) implies d.in_box(p) by {
                    assert(coarse_ok(c));
                    assert(min_x * k <= c.0 * k) by (nonlinear_arith)
                        requires min_x <= c.0, 1 <= k;
                    assert(c.0 * k <= max_x * k) by (nonlinear_arith)
                        requires c.0 <= max_x, 1 <= k;
                    assert(min_y * k <= c.1 * k) by (nonlinear_arith)
                        requires min_y <= c.1, 1 <= k;
                    assert(c.1 * k <= max_y * k) by (nonlinear_arith)
                        requires c.1 <= max_y, 1 <= k;
                    lemma_scale_bounds(max_x as int, k as int);
                    lemma_scale_bounds(max_y as int, k as int);
                }
            }
            d
        },
    }
}

/// Stage 1: the baseline `k×k` expansion `D0` (every `ring` cell mapped to a
/// solid block) over [`corridor_for_ring`]'s box, plus the expanded hole mask
/// `H` (every `hole` cell mapped the same way).
pub fn stage1_baseline(ring: &BTreeSet<Point>, hole: &BTreeSet<Point>, k: i32) -> (r: (
    Corridor,
    BTreeSet<Point>,
))
    requires
        all_coarse_ok(ring@),
        all_coarse_ok(hole@),
        block_size_ok(k as int),
    ensures
        r.0.wf(),
        ring_box_ok(&r.0, ring@, k as int),
        r.0.drivable() == blocks_of(ring@, k as int),
        r.1@ == blocks_of(hole@, k as int),
        box_small(&r.0),
        taper_range(&r.0),
{
    let mut d = corridor_for_ring(ring, k);
    let cells = set_to_vec(ring);
    let mut i: usize = 0;
    while i < cells.len()
        invariant
            i <= cells@.len(),
            d.wf(),
            ring_box_ok(&d, ring@, k as int),
            all_coarse_ok(ring@),
            block_size_ok(k as int),
            forall|j: int| 0 <= j < cells@.len() ==> ring@.contains(#[trigger] cells@[j]),
            cells@.to_set() == ring@,
            forall|c: Point, p: Point| ring@.contains(c) && #[trigger] in_block(p, c, k as int) ==> d.in_box(p),
            box_small(&d),
            taper_range(&d),
            forall|p: Point| #[trigger] d.has(p) <==> exists|j: int| 0 <= j < i && #[trigger] in_block(p, cells@[j], k as int),
        decreases cells@.len() - i,
    {
        let c = cells[i];
        let pts = block_points(c, k);
        proof {
            assert(coarse_ok(c));
            lemma_block_points_cover(c, k as int, pts@);
        }
        let mut m: usize = 0;
        while m < pts.len()
            invariant
                m <= pts@.len(),
                i < cells@.len(),
                c == cells@[i as int],
                ring@.contains(c),
                d.wf(),
                ring_box_ok(&d, ring@, k as int),
                forall|c2: Point, p: Point| ring@.contains(c2) && #[trigger] in_block(p, c2, k as int) ==> d.in_box(p),
                box_small(&d),
                taper_range(&d),
                forall|j: int| 0 <= j < pts@.len() ==> #[trigger] in_block(pts@[j], c, k as int),
                forall|p: Point| #[trigger] d.has(p) <==> (exists|j: int| 0 <= j < i && #[trigger] in_block(p, cells@[j], k as int))
                    || exists|n: int| 0 <= n < m && pts@[n] == p,
            decreases pts@.len() - m,
        {
            let p = pts[m];
            proof {
                assert(in_block(p, c, k as int));
                assert(d.in_box(p));
            }
            d.set(p, true);
            proof {
                assert forall|q: Point| #[trigger] d.has(q) <==> (exists|j: int| 0 <= j < i && #[trigger] in_block(q, cells@[j], k as int))
                    || exists|n: int| 0 <= n < m + 1 && pts@[n] == q by {
                    if q == p {
                        assert(pts@[m as int] == q);
                    }
                    if exists|n: int| 0 <= n < m + 1 && pts@[n] == q {
                        let n = choose|n: int| 0 <= n < m + 1 && pts@[n] == q;
                        if n < m {
                        }
                    }
                }
            }
            m = m + 1;
        }
        proof {
            assert forall|p: Point| #[trigger] d.has(p) <==> exists|j: int| 0 <= j < i + 1 && #[trigger] in_block(p, cells@[j], k as int) by {
                if d.has(p) {
                    if exists|n: int| 0 <= n < m && pts@[n] == p {
                        let n = choose|n: int| 0 <= n < m && pts@[n] == p;
                        assert(in_block(pts@[n], c, k as int));
                        assert(in_block(p, cells@[i as int], k as int));
                    } else {
                        let j = choose|j: int| 0 <= j < i && #[trigger] in_block(p, cells@[j], k as int);
                        assert(in_block(p, cells@[j], k as int));
                    }
                }
                if exists|j: int| 0 <= j < i + 1 && #[trigger] in_block(p, cells@[j], k as int) {
                    let j = choose|j: int| 0 <= j < i + 1 && #[trigger] in_block(p, cells@[j], k as int);
                    if j == i {
                        assert(pts@.contains(p));
                    } else {
                        assert(in_block(p, cells@[j], k as int));
                    }
                }
            }
        }
        i = i + 1;
    }
    proof {
        assert(d.drivable() =~= blocks_of(ring@, k as int)) by {
            assert forall|p: Point| d.has(p) <==> blocks_of(ring@, k as int).contains(p) by {
                if d.has(p) {
                    let j = choose|j: int| 0 <= j < i && #[trigger] in_block(p, cells@[j], k as int);
                    assert(ring@.contains(cells@[j]));
                }
                if blocks_of(ring@, k as int).contains(p) {
                    let c = choose|c: Point| ring@.contains(c) && #[trigger] in_block(p, c, k as int);
                    assert(cells@.to_set().contains(c));
                    let j = choose|j: int| 0 <= j < cells@.len() && cells@[j] == c;
                    assert(in_block(p, cells@[j], k as int));
                }
            }
        }
    }
    let h = hole_mask(hole, k);
    (d, h)
}

/// The union of the `k×k` blocks of every `hole` cell.
pub fn hole_mask(hole: &BTreeSet<Point>, k: i32) -> (h: BTreeSet<Point>)
    requires
        all_coarse_ok(hole@),
        block_size_ok(k as int),
    ensures
        h@ == blocks_of(hole@, k as int),
{
    let cells = set_to_vec(hole);
    let mut h: BTreeSet<Point> = BTreeSet::new();
    let mut i: usize = 0;
    while i < cells.len()
        invariant
            i <= cells@.len(),
            all_coarse_ok(hole@),
            block_size_ok(k as int),
            forall|j: int| 0 <= j < cells@.len() ==> hole@.contains(#[trigger] cells@[j]),
            forall|p: Point| #[trigger] h@.contains(p) <==> exists|j: int| 0 <= j < i && #[trigger] in_block(p, cells@[j], k as int),
        decreases cells@.len() - i,
    {
        let c = cells[i];
        let pts = block_points(c, k);
        proof {
            assert(coarse_ok(c));
            lemma_block_points_cover(c, k as int, pts@);
        }
        let ghost before = h@;
        insert_all(&mut h, &pts);
        proof {
            assert forall|p: Point| #[trigger] h@.contains(p) <==> exists|j: int| 0 <= j < i + 1 && #[trigger] in_block(p, cells@[j], k as int) by {
                if h@.contains(p) {
                    if before.contains(p) {
                        let j = choose|j: int| 0 <= j < i && #[trigger] in_block(p, cells@[j], k as int);
                        assert(in_block(p, cells@[j], k as int));
                    } else {
                        assert(pts@.to_set().contains(p));
                        let n = choose|n: int| 0 <= n < pts@.len() && pts@[n] == p;
                        assert(in_block(pts@[n], c, k as int));
                        assert(in_block(p, cells@[i as int], k as int));
                    }
                }
                if exists|j: int| 0 <= j < i + 1 && #[trigger] in_block(p, cells@[j], k as int) {
                    let j = choose|j: int| 0 <= j < i + 1 && #[trigger] in_block(p, cells@[j], k as int);
                    if j == i {
                        assert(pts@.contains(p));
                        assert(pts@.to_set().contains(p));
                    } else {
                        assert(in_block(p, cells@[j], k as int));
                    }
                }
            }
        }
        i = i + 1;
    }
    proof {
        assert(h@ =~= blocks_of(hole@, k as int)) by {
            assert forall|p: Point| h@.contains(p) <==> blocks_of(hole@, k as int).contains(p) by {
                if h@.contains(p) {
                    let j = choose|j: int| 0 <= j < i && #[trigger] in_block(p, cells@[j], k as int);
                    assert(hole@.contains(cells@[j]));
                }
                if blocks_of(hole@, k as int).contains(p) {
                    let c = choose|c: Point| hole@.contains(c) && #[trigger] in_block(p, c, k as int);
                    assert(cells@.to_set().contains(c));
                    let j = choose|j: int| 0 <= j < cells@.len() && cells@[j] == c;
                    assert(in_block(p, cells@[j], k as int));
                }
            }
        }
    }
    h
}

/// The "no local top" sentinel: far below any real coordinate.
pub const NEG_INF: i32 = -1073741824i32;

/// The value an envelope entry starts from: the top, or [`NEG_INF`].
pub open spec fn top_value(t: Option<i32>) -> int {
    match t {
        Some(v) => v as int,
        None => NEG_INF as int,
    }
}

/// `|a - b|`.
pub open spec fn dist(a: int, b: int) -> int {
    if a >= b { a - b } else { b - a }
}

/// `env` is the least 1-Lipschitz sequence lying on or above every top:
/// it is on or above each top, consecutive entries differ by at most one,
/// and each entry is attained as some top minus its distance — so every
/// 1-Lipschitz sequence above the tops is above `env` too.
pub open spec fn is_lipschitz_envelope(env: Seq<i32>, tops: Seq<Option<i32>>) -> bool {
    &&& env.len() == tops.len()
    &&& forall|i: int| 0 <= i < env.len() ==> #[trigger] env[i] >= top_value(tops[i])
    &&& forall|i: int| 0 <= i < env.len() - 1 ==> #[trigger] env[i + 1] >= env[i] - 1 && env[i] >= env[i + 1] - 1
    &&& exists|w: Seq<int>| envelope_witness(env, tops, w)
}

/// `w[i]` names, for each entry `i`, a top that `env[i]` is attained from:
/// `env[i] == tops[w[i]] - |i - w[i]|`.
pub open spec fn envelope_witness(env: Seq<i32>, tops: Seq<Option<i32>>, w: Seq<int>) -> bool {
    &&& w.len() == env.len()
    &&& forall|i: int|
        0 <= i < env.len() ==> 0 <= #[trigger] w[i] < env.len() && env[i] == top_value(tops[w[i]])
            - dist(i, w[i])
}

/// Any 1-Lipschitz sequence on or above the tops lies on or above the
/// envelope.
pub proof fn lemma_envelope_is_least(env: Seq<i32>, tops: Seq<Option<i32>>, g: Seq<int>)
    requires
        is_lipschitz_envelope(env, tops),
        g.len() == tops.len(),
        forall|i: int| 0 <= i < g.len() ==> #[trigger] g[i] >= top_value(tops[i]),
        forall|i: int| 0 <= i < g.len() - 1 ==> #[trigger] g[i + 1] >= g[i] - 1 && g[i] >= g[i + 1] - 1,
    ensures
        forall|i: int| 0 <= i < g.len() ==> #[trigger] g[i] >= env[i],
{
    let w = choose|w: Seq<int>| envelope_witness(env, tops, w);
    assert forall|i: int| 0 <= i < g.len() implies #[trigger] g[i] >= env[i] by {
        let j = w[i];
        lemma_lipschitz_reach(g, j, i);
    }
}

proof fn lemma_lipschitz_reach(g: Seq<int>, j: int, i: int)
    requires
        0 <= j < g.len(),
        0 <= i < g.len(),
        forall|a: int| 0 <= a < g.len() - 1 ==> #[trigger] g[a + 1] >= g[a] - 1 && g[a] >= g[a + 1] - 1,
    ensures
        g[i] >= g[j] - dist(i, j),
    decreases dist(i, j),
{
    if i < j {
        lemma_lipschitz_reach(g, j, i + 1);
        assert(g[i] >= g[i + 1] - 1);
    } else if i > j {
        lemma_lipschitz_reach(g, j, i - 1);
        assert(g[i - 1 + 1] >= g[i - 1] - 1);
    }
}

/// The forward pass: each entry raised to its left neighbor minus one.
fn envelope_forward(tops: &[Option<i32>]) -> (r: (Vec<i32>, Ghost<Seq<int>>))
    ensures
        r.0@.len() == tops@.len(),
        r.1@.len() == tops@.len(),
        forall|a: int, j: int|
            #![trigger r.0@[a], tops@[j]]
            0 <= j <= a < tops@.len() ==> r.0@[a] >= top_value(tops@[j]) - (a - j),
        forall|a: int|
            0 <= a < tops@.len() ==> 0 <= #[trigger] r.1@[a] <= a && r.0@[a] == top_value(tops@[r.1@[a]]) - (a - r.1@[a]),
{
    let n = tops.len();
    let mut env: Vec<i32> = Vec::new();
    let ghost mut wit: Seq<int> = Seq::empty();
    let mut i: usize = 0;
    while i < n
        invariant
            n == tops@.len(),
            i <= n,
            env@.len() == i,
            wit.len() == i,
            forall|a: int, j: int|
                #![trigger env@[a], tops@[j]]
                0 <= j <= a < i ==> env@[a] >= top_value(tops@[j]) - (a - j),
            forall|a: int|
                0 <= a < i ==> 0 <= #[trigger] wit[a] <= a && env@[a] == top_value(tops@[wit[a]]) - (a - wit[a]),
        decreases n - i,
    {
        let t: i32 = match tops[i] {
            Some(v) => v,
            None => NEG_INF,
        };
        let ghost ii = i as int;
        if i == 0 {
            env.push(t);
            proof {
                wit = wit.push(0);
            }
        } else {
            let prev = env[i - 1] as i64 - 1;
            if prev > t as i64 {
                env.push(prev as i32);
                proof {
                    wit = wit.push(wit[ii - 1]);
                }
            } else {
                env.push(t);
                proof {
                    wit = wit.push(ii);
                }
            }
        }
        proof {
            assert forall|a: int, j: int|
                #![trigger env@[a], tops@[j]]
                0 <= j <= a < ii + 1 implies env@[a] >= top_value(tops@[j]) - (a - j) by {
                if a == ii && j < ii {
                    assert(env@[ii - 1] >= top_value(tops@[j]) - (ii - 1 - j));
                }
            }
            assert forall|a: int|
                0 <= a < ii + 1 implies 0 <= #[trigger] wit[a] <= a && env@[a] == top_value(tops@[wit[a]]) - (a - wit[a]) by {
            }
        }
        i = i + 1;
    }
    (env, Ghost(wit))
}

/// The minimal 1-Lipschitz field on or above `tops` (entries without a top
/// contribute [`NEG_INF`]): two linear passes, forward then backward, each
/// raising an entry to its neighbor minus one.
pub fn one_lipschitz_envelope(tops: &[Option<i32>]) -> (env: Vec<i32>)
    ensures
        is_lipschitz_envelope(env@, tops@),
{
    let (mut env, Ghost(fwit)) = envelope_forward(tops);
    let n = tops.len();
    if n == 0 {
        proof {
            assert(envelope_witness(env@, tops@, Seq::<int>::empty()));
        }
        return env;
    }
    let ghost mut wit: Seq<int> = fwit;
    let mut b: usize = n - 1;
    proof {
        let l = n - 1;
        assert forall|a: int, j: int|
            #![trigger env@[a], tops@[j]]
            b <= a < n && 0 <= j < n implies env@[a] >= top_value(tops@[j]) - dist(a, j) by {
            assert(a == l);
        }
    }
    while b > 0
        invariant
            n == tops@.len(),
            n >= 1,
            b < n,
            env@.len() == n,
            wit.len() == n,
            forall|a: int, j: int|
                #![trigger env@[a], tops@[j]]
                0 <= j <= a < b ==> env@[a] >= top_value(tops@[j]) - (a - j),
            forall|a: int|
                0 <= a < b ==> 0 <= #[trigger] wit[a] <= a && env@[a] == top_value(tops@[wit[a]]) - (a - wit[a]),
            forall|a: int, j: int|
                #![trigger env@[a], tops@[j]]
                b <= a < n && 0 <= j < n ==> env@[a] >= top_value(tops@[j]) - dist(a, j),
            forall|a: int|
                b <= a < n ==> 0 <= #[trigger] wit[a] < n && env@[a] == top_value(tops@[wit[a]]) - dist(a, wit[a]),
        decreases b,
    {
        let ghost old_env = env@;
        let ghost bb = b as int;
        let nxt = env[b] as i64 - 1;
        let cur = env[b - 1];
        if nxt > cur as i64 {
            env.set(b - 1, nxt as i32);
            proof {
                wit = wit.update(bb - 1, wit[bb]);
                assert(env@[bb - 1] == top_value(tops@[wit[bb - 1]]) - dist(bb - 1, wit[bb - 1]));
            }
        } else {
            proof {
                assert(wit[bb - 1] <= bb - 1);
                assert(env@[bb - 1] == top_value(tops@[wit[bb - 1]]) - dist(bb - 1, wit[bb - 1]));
            }
        }
        proof {
            let a0 = bb - 1;
            assert forall|a: int, j: int|
                #![trigger env@[a], tops@[j]]
                a0 <= a < n && 0 <= j < n implies env@[a] >= top_value(tops@[j]) - dist(a, j) by {
                if a == a0 {
                    if j <= a0 {
                        assert(old_env[a0] >= top_value(tops@[j]) - (a0 - j));
                    } else {
                        assert(old_env[bb] >= top_value(tops@[j]) - dist(bb, j));
                    }
                } else {
                    assert(old_env[a] == env@[a]);
                }
            }
        }
        b = b - 1;
    }
    proof {
        assert forall|i: int| 0 <= i < n implies #[trigger] env@[i] >= top_value(tops@[i]) by {
            assert(env@[i] >= top_value(tops@[i]) - dist(i, i));
        }
        assert forall|i: int| 0 <= i < n - 1 implies #[trigger] env@[i + 1] >= env@[i] - 1 && env@[i] >= env@[i + 1] - 1 by {
            assert(env@[i + 1] >= top_value(tops@[wit[i]]) - dist(i + 1, wit[i]));
            assert(env@[i] >= top_value(tops@[wit[i + 1]]) - dist(i, wit[i + 1]));
        }
        assert(envelope_witness(env@, tops@, wit));
        assert(is_lipschitz_envelope(env@, tops@));
    }
    env
}

/// Two envelopes of the same tops are equal.
pub proof fn lemma_envelope_unique(e1: Seq<i32>, e2: Seq<i32>, tops: Seq<Option<i32>>)
    requires
        is_lipschitz_envelope(e1, tops),
        is_lipschitz_envelope(e2, tops),
    ensures
        e1 == e2,
{
    let g1 = Seq::new(e1.len(), |i: int| e1[i] as int);
    let g2 = Seq::new(e2.len(), |i: int| e2[i] as int);
    lemma_envelope_is_least(e2, tops, g1);
    lemma_envelope_is_least(e1, tops, g2);
    assert forall|i: int| 0 <= i < e1.len() implies e1[i] == e2[i] by {
        assert(g1[i] >= e2[i]);
        assert(g2[i] >= e1[i]);
    }
    assert(e1 =~= e2);
}

/// The point at coordinate `v` along line `line`: a row `y = line` when
/// `vertical` is false, a column `x = line` otherwise.
pub open spec fn line_pt(vertical: bool, line: int, v: int) -> Point {
    if vertical { (line as i32, v as i32) } else { (v as i32, line as i32) }
}

/// `x` is the extremal drivable coordinate of the line — the greatest for
/// `sign > 0`, the least for `sign < 0`.
pub open spec fn is_extent(d: &Corridor, vertical: bool, line: int, sign: int, x: int) -> bool {
    &&& i32::MIN <= x <= i32::MAX
    &&& d.has(line_pt(vertical, line, x))
    &&& forall|v: int|
        i32::MIN <= v <= i32::MAX && #[trigger] d.has(line_pt(vertical, line, v)) ==> if sign > 0 {
            v <= x
        } else {
            x <= v
        }
}

/// The line's extremal drivable coordinate, if it has a drivable cell.
pub open spec fn extent_spec(d: &Corridor, vertical: bool, line: int, sign: int) -> Option<int> {
    if exists|x: int| is_extent(d, vertical, line, sign, x) {
        Some(choose|x: int| is_extent(d, vertical, line, sign, x))
    } else {
        None
    }
}

/// The box's first and one-past-last coordinates along a line.
pub open spec fn along_range(d: &Corridor, vertical: bool) -> (int, int) {
    if vertical { (d.oy(), d.oy() + d.h()) } else { (d.ox(), d.ox() + d.w()) }
}

/// The box's first and one-past-last line indices across lines.
pub open spec fn across_range(d: &Corridor, vertical: bool) -> (int, int) {
    if vertical { (d.ox(), d.ox() + d.w()) } else { (d.oy(), d.oy() + d.h()) }
}

/// The `m`-th coordinate a scan from the `sign` end of `rng` visits.
pub open spec fn scan_coord(rng: (int, int), sign: int, m: int) -> int {
    if sign > 0 { rng.1 - 1 - m } else { rng.0 + m }
}

/// The extremal (greatest if `sign > 0`, least otherwise) coordinate along
/// line `line` holding a drivable cell, or `None` if the line has none.
pub fn line_extent(d: &Corridor, vertical: bool, line: i32, sign: i32) -> (r: Option<i32>)
    requires
        d.wf(),
    ensures
        r matches Some(x) ==> is_extent(d, vertical, line as int, sign as int, x as int),
        r is None ==> forall|v: int| i32::MIN <= v <= i32::MAX ==> !#[trigger] d.has(line_pt(vertical, line as int, v)),
        r matches Some(x) ==> extent_spec(d, vertical, line as int, sign as int) == Some(x as int),
        r is None ==> extent_spec(d, vertical, line as int, sign as int) is None,
{
    let origin = d.origin();
    let (lo, n): (i32, usize) = if vertical { (origin.1, d.height()) } else { (origin.0, d.width()) };
    let ghost rng = along_range(d, vertical);
    let mut i: usize = 0;
    while i < n
        invariant
            d.wf(),
            rng == along_range(d, vertical),
            lo == rng.0,
            n == rng.1 - rng.0,
            i <= n,
            forall|m: int| 0 <= m < i ==> !#[trigger] d.has(line_pt(vertical, line as int, scan_coord(rng, sign as int, m))),
        decreases n - i,
    {
        let v: i32 = if sign > 0 { (lo as i64 + n as i64 - 1 - i as i64) as i32 } else { (lo as i64 + i as i64) as i32 };
        let p: Point = if vertical { (line, v) } else { (v, line) };
        if d.contains(p) {
            proof {
                assert(is_extent(d, vertical, line as int, sign as int, v as int)) by {
                    assert forall|u: int| i32::MIN <= u <= i32::MAX && #[trigger] d.has(line_pt(vertical, line as int, u)) implies (if sign > 0 {
                        u <= v
                    } else {
                        v <= u
                    }) by {
                        assert(d.in_box(line_pt(vertical, line as int, u)));
                        if sign > 0 {
                            if u > v {
                                let m = rng.1 - 1 - u;
                                assert(0 <= m < i);
                                assert(!d.has(line_pt(vertical, line as int, scan_coord(rng, sign as int, m))));
                            }
                        } else {
                            if u < v {
                                let m = u - rng.0;
                                assert(0 <= m < i);
                                assert(!d.has(line_pt(vertical, line as int, scan_coord(rng, sign as int, m))));
                            }
                        }
                    }
                }
                lemma_extent_unique(d, vertical, line as int, sign as int, v as int);
            }
            return Some(v);
        }
        i = i + 1;
    }
    proof {
        assert forall|v: int| i32::MIN <= v <= i32::MAX implies !#[trigger] d.has(line_pt(vertical, line as int, v)) by {
            if d.has(line_pt(vertical, line as int, v)) {
                assert(d.in_box(line_pt(vertical, line as int, v)));
                if sign > 0 {
                    let m = rng.1 - 1 - v;
                    assert(!d.has(line_pt(vertical, line as int, scan_coord(rng, sign as int, m))));
                } else {
                    let m = v - rng.0;
                    assert(!d.has(line_pt(vertical, line as int, scan_coord(rng, sign as int, m))));
                }
            }
        }
        if exists|x: int| is_extent(d, vertical, line as int, sign as int, x) {
            let x = choose|x: int| is_extent(d, vertical, line as int, sign as int, x);
            assert(d.has(line_pt(vertical, line as int, x)));
        }
    }
    None
}

/// A line has at most one extent, and [`extent_spec`] names it.
pub proof fn lemma_extent_unique(d: &Corridor, vertical: bool, line: int, sign: int, x: int)
    requires
        is_extent(d, vertical, line, sign, x),
    ensures
        extent_spec(d, vertical, line, sign) == Some(x),
{
    let y = choose|y: int| is_extent(d, vertical, line, sign, y);
    assert(d.has(line_pt(vertical, line, y)));
    assert(d.has(line_pt(vertical, line, x)));
}

/// Whether `v` lies strictly past `start` and no further than `target`,
/// walking in direction `sign`.
pub open spec fn between(start: int, v: int, target: int, sign: int) -> bool {
    if sign > 0 { start < v <= target } else { target <= v < start }
}

/// The coordinate of `q` along a line.
pub open spec fn along(vertical: bool, q: Point) -> int {
    if vertical { q.1 as int } else { q.0 as int }
}

/// The index of the line through `q`.
pub open spec fn across(vertical: bool, q: Point) -> int {
    if vertical { q.0 as int } else { q.1 as int }
}

/// No cell of `h` lies on the line between `start` (exclusive) and `v`
/// (inclusive).
pub open spec fn path_clear(h: Set<Point>, vertical: bool, line: int, start: int, v: int, sign: int) -> bool {
    forall|u: int| between(start, u, v, sign) ==> !h.contains(#[trigger] line_pt(vertical, line, u))
}

/// Whether an outward fill along `line` from `start` towards `target`
/// (stopping before the first `h` cell) reaches `q`.
pub open spec fn fill_reaches(h: Set<Point>, vertical: bool, line: int, start: int, target: int, sign: int, q: Point) -> bool {
    &&& across(vertical, q) == line
    &&& between(start, along(vertical, q), target, sign)
    &&& path_clear(h, vertical, line, start, along(vertical, q), sign)
}

proof fn lemma_line_pt_roundtrip(vertical: bool, q: Point)
    ensures
        line_pt(vertical, across(vertical, q), along(vertical, q)) == q,
{
}

/// Makes drivable every cell of line `line` strictly past `start` up to and
/// including `target` in direction `sign`, stopping at (and never filling)
/// the first cell of `h`.
pub fn fill_outward(d: &mut Corridor, h: &BTreeSet<Point>, vertical: bool, line: i32, start: i32, target: i32, sign: i32)
    requires
        old(d).wf(),
        box_small(old(d)),
        sign == 1 || sign == -1,
        across_range(old(d), vertical).0 <= line < across_range(old(d), vertical).1,
        along_range(old(d), vertical).0 <= start < along_range(old(d), vertical).1,
        sign > 0 ==> target < along_range(old(d), vertical).1,
        sign < 0 ==> target >= along_range(old(d), vertical).0,
    ensures
        final(d).wf(),
        final(d).same_box(old(d)),
        forall|q: Point| #[trigger] final(d).has(q) == (old(d).has(q) || fill_reaches(h@, vertical, line as int, start as int, target as int, sign as int, q)),
{
    let ghost rng = along_range(d, vertical);
    let mut v: i32 = start + sign;
    let mut go = true;
    while go && ((sign > 0 && v <= target) || (sign < 0 && v >= target))
        invariant
            d.wf(),
            box_small(d),
            d.same_box(old(d)),
            rng == along_range(d, vertical),
            sign == 1 || sign == -1,
            across_range(d, vertical).0 <= line < across_range(d, vertical).1,
            rng.0 <= start < rng.1,
            sign > 0 ==> target < rng.1,
            sign < 0 ==> target >= rng.0,
            sign > 0 ==> start < v <= target + 1 || (v == start + 1),
            sign < 0 ==> target - 1 <= v < start || (v == start - 1),
            go ==> path_clear(h@, vertical, line as int, start as int, v - sign, sign as int),
            forall|q: Point| #[trigger] d.has(q) == (old(d).has(q) || (fill_reaches(h@, vertical, line as int, start as int, target as int, sign as int, q)
                && between(start as int, along(vertical, q), v - sign, sign as int))),
            !go ==> forall|q: Point| fill_reaches(h@, vertical, line as int, start as int, target as int, sign as int, q)
                ==> between(start as int, along(vertical, q), v - sign, sign as int),
        decreases (if sign > 0 { target - v + 1 } else { v - target + 1 }) + (if go { 1int } else { 0 }),
    {
        let p: Point = if vertical { (line, v) } else { (v, line) };
        proof {
            assert(p == line_pt(vertical, line as int, v as int));
        }
        if crate::points::set_has(h, p) {
            go = false;
            proof {
                assert forall|q: Point| fill_reaches(h@, vertical, line as int, start as int, target as int, sign as int, q)
                    implies between(start as int, along(vertical, q), v - sign, sign as int) by {
                    let a = along(vertical, q);
                    lemma_line_pt_roundtrip(vertical, q);
                    if !between(start as int, a, v - sign, sign as int) {
                        assert(between(start as int, v as int, a, sign as int));
                        assert(!h@.contains(line_pt(vertical, line as int, v as int)));
                    }
                }
            }
        } else {
            proof {
                assert(d.in_box(p));
            }
            d.set(p, true);
            proof {
                assert forall|q: Point| #[trigger] d.has(q) == (old(d).has(q) || (fill_reaches(h@, vertical, line as int, start as int, target as int, sign as int, q)
                    && between(start as int, along(vertical, q), v as int, sign as int))) by {
                    lemma_line_pt_roundtrip(vertical, q);
                    if q == p {
                        assert(path_clear(h@, vertical, line as int, start as int, v as int, sign as int));
                    }
                }
                assert(path_clear(h@, vertical, line as int, start as int, v as int, sign as int));
            }
            v = v + sign;
        }
    }
    proof {
        assert forall|q: Point| #[trigger] d.has(q) == (old(d).has(q) || fill_reaches(h@, vertical, line as int, start as int, target as int, sign as int, q)) by {
            if fill_reaches(h@, vertical, line as int, start as int, target as int, sign as int, q) && go {
                assert(between(start as int, along(vertical, q), v - sign, sign as int));
            }
        }
    }
}

/// A line's taper top: its extent scaled by `sign`, unless the cell just
/// past the extent belongs to `h` (the infield), in which case the line has
/// no top of its own.
pub open spec fn taper_top(d: &Corridor, h: Set<Point>, vertical: bool, line: int, sign: int) -> Option<i32> {
    match extent_spec(d, vertical, line, sign) {
        Some(x) => if !h.contains(line_pt(vertical, line, x + sign)) {
            Some((x * sign) as i32)
        } else {
            None
        },
        None => None,
    }
}

/// The taper tops of every line across the box, in line order.
pub open spec fn taper_tops(d: &Corridor, h: Set<Point>, vertical: bool, sign: int) -> Seq<Option<i32>> {
    Seq::new(
        (across_range(d, vertical).1 - across_range(d, vertical).0) as nat,
        |r: int| taper_top(d, h, vertical, across_range(d, vertical).0 + r, sign),
    )
}

/// Whether the taper with envelope `env` fills `q`: `q`'s line has an
/// extent, and the outward fill from it to the envelope's target reaches `q`.
pub open spec fn taper_fills(d: &Corridor, h: Set<Point>, vertical: bool, sign: int, env: Seq<i32>, q: Point) -> bool {
    let line = across(vertical, q);
    let r = line - across_range(d, vertical).0;
    &&& across_range(d, vertical).0 <= line < across_range(d, vertical).1
    &&& extent_spec(d, vertical, line, sign) matches Some(ex) && fill_reaches(h, vertical, line, ex, env[r] * sign, sign, q)
}

/// `b` is `a` after one directional taper pass: same box, and exactly the
/// cells the outward fills to the least 1-Lipschitz envelope reach are
/// added.
pub open spec fn taper_rel(a: &Corridor, b: &Corridor, h: Set<Point>, vertical: bool, sign: int) -> bool {
    &&& b.wf()
    &&& b.same_box(a)
    &&& exists|env: Seq<i32>| #![trigger is_lipschitz_envelope(env, taper_tops(a, h, vertical, sign))]
        is_lipschitz_envelope(env, taper_tops(a, h, vertical, sign)) && forall|q: Point|
            #[trigger] b.has(q) == (a.has(q) || taper_fills(a, h, vertical, sign, env, q))
}

/// One directional taper pass along lines (rows when `vertical` is false,
/// columns otherwise), facing direction `sign`: each line's outfield wall
/// is advanced to the least 1-Lipschitz envelope of all lines' walls,
/// additively and never into `h`.
pub fn taper_lines(d: &mut Corridor, h: &BTreeSet<Point>, vertical: bool, sign: i32)
    requires
        old(d).wf(),
        box_small(old(d)),
        taper_range(old(d)),
        sign == 1 || sign == -1,
    ensures
        final(d).wf(),
        final(d).same_box(old(d)),
        box_small(final(d)),
        taper_range(final(d)),
        taper_rel(old(d), final(d), h@, vertical, sign as int),
{
    let origin = d.origin();
    let (lo, n): (i32, usize) = if vertical { (origin.0, d.width()) } else { (origin.1, d.height()) };
    let ghost d0 = *d;
    let ghost arng = across_range(d, vertical);
    let ghost rng = along_range(d, vertical);
    let mut existing: Vec<Option<i32>> = Vec::new();
    let mut tops: Vec<Option<i32>> = Vec::new();
    let mut r: usize = 0;
    while r < n
        invariant
            d.wf(),
            box_small(d),
            *d == d0,
            arng == across_range(d, vertical),
            rng == along_range(d, vertical),
            lo == arng.0,
            n == arng.1 - arng.0,
            sign == 1 || sign == -1,
            r <= n,
            existing@.len() == r,
            tops@.len() == r,
            forall|i: int| 0 <= i < r ==> #[trigger] existing@[i] == match extent_spec(d, vertical, arng.0 + i, sign as int) {
                Some(x) => Some(x as i32),
                None => None::<i32>,
            },
            forall|i: int| 0 <= i < r ==> #[trigger] tops@[i] == taper_top(d, h@, vertical, arng.0 + i, sign as int),
            forall|i: int| 0 <= i < r ==> (#[trigger] existing@[i] matches Some(x) ==> rng.0 <= x < rng.1),
        decreases n - r,
    {
        let line: i32 = (lo as i64 + r as i64) as i32;
        let ex = line_extent(d, vertical, line, sign);
        let top: Option<i32> = match ex {
            Some(x) => {
                proof {
                    assert(d.has(line_pt(vertical, line as int, x as int)));
                }
                let nb: Point = if vertical { (line, x + sign) } else { (x + sign, line) };
                proof {
                    assert(nb == line_pt(vertical, line as int, x + sign));
                }
                if !crate::points::set_has(h, nb) {
                    Some(x * sign)
                } else {
                    None
                }
            },
            None => None,
        };
        existing.push(ex);
        tops.push(top);
        r = r + 1;
    }
    proof {
        assert(tops@ =~= taper_tops(d, h@, vertical, sign as int));
    }
    let env = one_lipschitz_envelope(&tops);
    proof {
        let w = choose|w: Seq<int>| envelope_witness(env@, tops@, w);
        assert forall|i: int| 0 <= i < n implies (if sign > 0 { #[trigger] env@[i] < rng.1 } else { -env@[i] >= rng.0 }) by {
            let j = w[i];
            assert(env@[i] <= top_value(tops@[j]));
            match extent_spec(d, vertical, arng.0 + j, sign as int) {
                Some(x) => {
                    assert(existing@[j] == Some(x as i32));
                }
                None => {}
            }
        }
    }
    let mut i: usize = 0;
    while i < n
        invariant
            d.wf(),
            box_small(d),
            d.same_box(&d0),
            d0.wf(),
            arng == across_range(d, vertical),
            rng == along_range(d, vertical),
            lo == arng.0,
            n == arng.1 - arng.0,
            sign == 1 || sign == -1,
            i <= n,
            existing@.len() == n,
            env@.len() == n,
            is_lipschitz_envelope(env@, taper_tops(&d0, h@, vertical, sign as int)),
            forall|a: int| 0 <= a < n ==> #[trigger] existing@[a] == match extent_spec(&d0, vertical, arng.0 + a, sign as int) {
                Some(x) => Some(x as i32),
                None => None::<i32>,
            },
            forall|a: int| 0 <= a < n ==> (#[trigger] existing@[a] matches Some(x) ==> rng.0 <= x < rng.1),
            forall|a: int| 0 <= a < n ==> (if sign > 0 { #[trigger] env@[a] < rng.1 } else { -env@[a] >= rng.0 }),
            forall|q: Point| #[trigger] d.has(q) == (d0.has(q) || (taper_fills(&d0, h@, vertical, sign as int, env@, q)
                && across(vertical, q) - arng.0 < i)),
        decreases n - i,
    {
        match existing[i] {
            Some(ex) => {
                let line: i32 = (lo as i64 + i as i64) as i32;
                let target: i32 = env[i] * sign;
                proof {
                    assert(existing@[i as int] == Some(ex));
                }
                let ghost before = *d;
                fill_outward(d, h, vertical, line, ex, target, sign);
                proof {
                    assert forall|q: Point| #[trigger] d.has(q) == (d0.has(q) || (taper_fills(&d0, h@, vertical, sign as int, env@, q)
                        && across(vertical, q) - arng.0 < i + 1)) by {
                        if across(vertical, q) == line {
                            match extent_spec(&d0, vertical, line as int, sign as int) {
                                Some(x) => {
                                    assert(existing@[i as int] == Some(x as i32));
                                }
                                None => {}
                            }
                        }
                    }
                }
            },
            None => {
                proof {
                    assert forall|q: Point| #[trigger] d.has(q) == (d0.has(q) || (taper_fills(&d0, h@, vertical, sign as int, env@, q)
                        && across(vertical, q) - arng.0 < i + 1)) by {
                        if across(vertical, q) - arng.0 == i {
                            assert(existing@[i as int] is None);
                        }
                    }
                }
            },
        }
        i = i + 1;
    }
    proof {
        assert(is_lipschitz_envelope(env@, taper_tops(old(d), h@, vertical, sign as int)));
    }
}

/// `q` lies in a bounded pocket of `d`'s complement that misses `h`: an
/// open cell whose whole component avoids the box border and `h`.
pub open spec fn pocket(d: &Corridor, h: Set<Point>, q: Point) -> bool {
    &&& open_cell(d, q)
    &&& forall|r: Point| #[trigger] linked(d, false, q, r) ==> !d.on_border(r) && !h.contains(r)
}

/// Whether some cell of `comp` lies on `d`'s box border, and whether some
/// cell of `comp` lies in `h`.
fn touches(d: &Corridor, h: &BTreeSet<Point>, comp: &Vec<Point>) -> (r: (bool, bool))
    requires
        d.wf(),
    ensures
        r.0 == exists|i: int| 0 <= i < comp@.len() && d.on_border(#[trigger] comp@[i]),
        r.1 == exists|i: int| 0 <= i < comp@.len() && h@.contains(#[trigger] comp@[i]),
{
    let origin = d.origin();
    let x1: i64 = origin.0 as i64 + d.width() as i64;
    let y1: i64 = origin.1 as i64 + d.height() as i64;
    let mut border = false;
    let mut hole = false;
    let mut i: usize = 0;
    while i < comp.len()
        invariant
            d.wf(),
            origin.0 == d.ox() && origin.1 == d.oy(),
            x1 == d.ox() + d.w() && y1 == d.oy() + d.h(),
            i <= comp@.len(),
            border == exists|j: int| 0 <= j < i && d.on_border(#[trigger] comp@[j]),
            hole == exists|j: int| 0 <= j < i && h@.contains(#[trigger] comp@[j]),
        decreases comp@.len() - i,
    {
        let p = comp[i];
        let on_b = d.box_contains(p) && (p.0 == origin.0 || p.1 == origin.1 || p.0 as i64 + 1 == x1 || p.1 as i64 + 1 == y1);
        if on_b {
            border = true;
        }
        if crate::points::set_has(h, p) {
            hole = true;
        }
        proof {
            assert(on_b == d.on_border(comp@[i as int]));
        }
        i = i + 1;
    }
    (border, hole)
}

/// Stage 2b: makes drivable every bounded 4-connected component of `d`'s
/// complement (inside `d`'s box) that is disjoint from `h` — every pocket
/// except the legitimate hole. Components are found by a row-major seed
/// scan and a flood from each unvisited seed; all of them are found on the
/// input corridor before any is filled, which gives the same result as
/// filling each as it is found, since distinct components never touch.
pub fn stage2b_absorb_pockets(d: &mut Corridor, h: &BTreeSet<Point>)
    requires
        old(d).wf(),
        box_small(old(d)),
    ensures
        final(d).wf(),
        final(d).same_box(old(d)),
        box_small(final(d)),
        forall|q: Point| #[trigger] final(d).has(q) == (old(d).has(q) || pocket(old(d), h@, q)),
{
    let origin = d.origin();
    let w = d.width();
    let hh = d.height();
    let mut marks = Corridor::new(origin, w, hh);
    let mut absorb: Vec<Point> = Vec::new();
    let ghost d0 = *d;
    let mut by: usize = 0;
    while by < hh
        invariant
            d.wf(),
            box_small(d),
            *d == d0,
            origin.0 == d.ox() && origin.1 == d.oy() && w == d.w() && hh == d.h(),
            marks.wf(),
            marks.same_box(d),
            by <= hh,
            forall|p: Point| #[trigger] marks.has(p) ==> open_cell(d, p),
            forall|p: Point, q: Point| #[trigger] marks.has(p) && #[trigger] linked(d, false, p, q) ==> marks.has(q),
            forall|q: Point| open_cell(d, q) && q.1 - d.oy() < by ==> #[trigger] marks.has(q),
            forall|q: Point| #[trigger] absorb@.contains(q) ==> marks.has(q),
            forall|q: Point| #[trigger] marks.has(q) ==> (absorb@.contains(q) == pocket(d, h@, q)),
        decreases hh - by,
    {
        let mut bx: usize = 0;
        while bx < w
            invariant
                d.wf(),
                box_small(d),
                *d == d0,
                origin.0 == d.ox() && origin.1 == d.oy() && w == d.w() && hh == d.h(),
                marks.wf(),
                marks.same_box(d),
                by < hh,
                bx <= w,
                forall|p: Point| #[trigger] marks.has(p) ==> open_cell(d, p),
                forall|p: Point, q: Point| #[trigger] marks.has(p) && #[trigger] linked(d, false, p, q) ==> marks.has(q),
                forall|q: Point| open_cell(d, q) && (q.1 - d.oy() < by || (q.1 - d.oy() == by && q.0 - d.ox() < bx)) ==> #[trigger] marks.has(q),
                forall|q: Point| #[trigger] absorb@.contains(q) ==> marks.has(q),
                forall|q: Point| #[trigger] marks.has(q) ==> (absorb@.contains(q) == pocket(d, h@, q)),
            decreases w - bx,
        {
            let seed: Point = ((origin.0 as i64 + bx as i64) as i32, (origin.1 as i64 + by as i64) as i32);
            if !d.contains(seed) && !marks.contains(seed) {
                let ghost mk0 = marks;
                let comp = flood(d, false, &mut marks, seed);
                let (border, hole) = touches(d, h, &comp);
                let ghost a0 = absorb@;
                proof {
                    assert forall|q: Point| #[trigger] comp@.contains(q) implies pocket(d, h@, q) == (!border && !hole) by {
                        assert(linked(d, false, seed, q));
                        if !border && !hole {
                            assert forall|r: Point| #[trigger] linked(d, false, q, r) implies !d.on_border(r) && !h@.contains(r) by {
                                lemma_linked_trans(d, false, seed, q, r);
                                assert(comp@.contains(r));
                                let i = choose|i: int| 0 <= i < comp@.len() && comp@[i] == r;
                                assert(!d.on_border(comp@[i]));
                                assert(!h@.contains(comp@[i]));
                            }
                            let sp = choose|s: Seq<Point>| #[trigger] crate::flood::is_path(d, false, s) && s[0] == seed && s.last() == q;
                            assert(open_cell(d, sp[sp.len() - 1]));
                        } else {
                            lemma_linked_symm(d, false, seed, q);
                            if border {
                                let i = choose|i: int| 0 <= i < comp@.len() && d.on_border(#[trigger] comp@[i]);
                                assert(comp@.contains(comp@[i]));
                                lemma_linked_trans(d, false, q, seed, comp@[i]);
                            } else {
                                let i = choose|i: int| 0 <= i < comp@.len() && h@.contains(#[trigger] comp@[i]);
                                assert(comp@.contains(comp@[i]));
                                lemma_linked_trans(d, false, q, seed, comp@[i]);
                            }
                        }
                    }
                }
                if !border && !hole {
                    let mut j: usize = 0;
                    while j < comp.len()
                        invariant
                            j <= comp@.len(),
                            absorb@ == a0 + comp@.take(j as int),
                        decreases comp@.len() - j,
                    {
                        absorb.push(comp[j]);
                        proof {
                            assert(comp@.take(j + 1) == comp@.take(j as int).push(comp@[j as int]));
                        }
                        j = j + 1;
                    }
                    proof {
                        assert(comp@.take(comp@.len() as int) == comp@);
                    }
                }
                proof {
                    assert forall|q: Point| #[trigger] absorb@.contains(q) == (a0.contains(q) || (!border && !hole && comp@.contains(q))) by {
                        if !border && !hole {
                            if absorb@.contains(q) {
                                let i = choose|i: int| 0 <= i < absorb@.len() && absorb@[i] == q;
                                if i >= a0.len() {
                                    assert(comp@[i - a0.len()] == q);
                                }
                            }
                            if a0.contains(q) {
                                let i = choose|i: int| 0 <= i < a0.len() && a0[i] == q;
                                assert(absorb@[i] == q);
                            }
                            if comp@.contains(q) {
                                let i = choose|i: int| 0 <= i < comp@.len() && comp@[i] == q;
                                assert(absorb@[a0.len() + i] == q);
                            }
                        }
                    }
                    assert forall|p: Point, q: Point| #[trigger] marks.has(p) && #[trigger] linked(d, false, p, q) implies marks.has(q) by {
                        if !mk0.has(p) {
                            assert(linked(d, false, seed, p));
                            lemma_linked_trans(d, false, seed, p, q);
                        }
                    }
                    assert forall|q: Point| #[trigger] marks.has(q) implies open_cell(d, q) by {
                        if !mk0.has(q) {
                            let sp = choose|s: Seq<Point>| #[trigger] crate::flood::is_path(d, false, s) && s[0] == seed && s.last() == q;
                            assert(open_cell(d, sp[sp.len() - 1]));
                        }
                    }
                    assert forall|q: Point| #[trigger] marks.has(q) implies (absorb@.contains(q) == pocket(d, h@, q)) by {
                        if !mk0.has(q) {
                            assert(comp@.contains(q));
                            if a0.contains(q) {
                                assert(mk0.has(q));
                            }
                        }
                    }
                }
            } else {
                proof {
                    if !d.has(seed) {
                        assert(marks.has(seed));
                    }
                }
            }
            proof {
                assert(seed.0 - d.ox() == bx && seed.1 - d.oy() == by);
                assert forall|q: Point| open_cell(d, q) && (q.1 - d.oy() < by || (q.1 - d.oy() == by && q.0 - d.ox() < bx + 1)) implies #[trigger] marks.has(q) by {
                    if q.1 - d.oy() == by && q.0 - d.ox() == bx {
                        assert(q == seed);
                        if !marks.has(seed) {
                            lemma_linked_refl(d, false, seed);
                        }
                    }
                }
            }
            bx = bx + 1;
        }
        by = by + 1;
    }
    proof {
        assert forall|q: Point| #[trigger] absorb@.contains(q) == pocket(d, h@, q) by {
            if pocket(d, h@, q) {
                assert(marks.has(q));
            }
        }
    }
    let mut i: usize = 0;
    while i < absorb.len()
        invariant
            d.wf(),
            box_small(d),
            d.same_box(&d0),
            d0.wf(),
            i <= absorb@.len(),
            forall|q: Point| #[trigger] absorb@.contains(q) == pocket(&d0, h@, q),
            forall|q: Point| #[trigger] d.has(q) == (d0.has(q) || exists|j: int| 0 <= j < i && absorb@[j] == q),
        decreases absorb@.len() - i,
    {
        let p = absorb[i];
        proof {
            assert(absorb@.contains(p));
            assert(d0.in_box(p));
        }
        d.set(p, true);
        proof {
            assert forall|q: Point| #[trigger] d.has(q) == (d0.has(q) || exists|j: int| 0 <= j < i + 1 && absorb@[j] == q) by {
                if q == p {
                    assert(absorb@[i as int] == q);
                }
                if exists|j: int| 0 <= j < i + 1 && absorb@[j] == q {
                    let j = choose|j: int| 0 <= j < i + 1 && absorb@[j] == q;
                    if j < i {
                    }
                }
            }
        }
        i = i + 1;
    }
    proof {
        assert forall|q: Point| #[trigger] d.has(q) == (d0.has(q) || pocket(&d0, h@, q)) by {
            if pocket(&d0, h@, q) {
                assert(absorb@.contains(q));
                let j = choose|j: int| 0 <= j < absorb@.len() && absorb@[j] == q;
            }
            if exists|j: int| 0 <= j < i && absorb@[j] == q {
                let j = choose|j: int| 0 <= j < i && absorb@[j] == q;
                assert(absorb@.contains(q));
            }
        }
    }
}

/// Whether a side's wall is tapered along columns (`North`/`South`).
pub open spec fn side_vertical(side: Side) -> bool {
    side == Side::North || side == Side::South
}

/// The outward direction of a side along its lines.
pub open spec fn side_sign(side: Side) -> int {
    if side == Side::East || side == Side::North { 1 } else { -1 }
}

/// One directional taper pass: tapers `d`'s outfield-facing wall on `side`
/// into a 1-Lipschitz ramp, additively, never touching `h`.
pub fn taper_pass(d: &mut Corridor, h: &BTreeSet<Point>, side: Side)
    requires
        old(d).wf(),
        box_small(old(d)),
        taper_range(old(d)),
    ensures
        box_small(final(d)),
        taper_range(final(d)),
        taper_rel(old(d), final(d), h@, side_vertical(side), side_sign(side)),
{
    let (dx, dy) = side.delta();
    match side {
        Side::East | Side::West => taper_lines(d, h, false, dx),
        Side::North | Side::South => taper_lines(d, h, true, dy),
    }
}

/// Stage 2: the four directional outfield passes, in the fixed order
/// East, West, North, South.
pub fn stage2_taper(d: &mut Corridor, h: &BTreeSet<Point>)
    requires
        old(d).wf(),
        box_small(old(d)),
        taper_range(old(d)),
    ensures
        final(d).wf(),
        final(d).same_box(old(d)),
        box_small(final(d)),
        taper_range(final(d)),
        taper_fills_chain(old(d), final(d), h@),
{
    taper_pass(d, h, Side::East);
    let ghost c1 = *d;
    taper_pass(d, h, Side::West);
    let ghost c2 = *d;
    taper_pass(d, h, Side::North);
    let ghost c3 = *d;
    taper_pass(d, h, Side::South);
    proof {
        assert(taper_rel(old(d), &c1, h@, false, 1));
        assert(taper_rel(&c1, &c2, h@, false, -1));
        assert(taper_rel(&c2, &c3, h@, true, 1));
        assert(taper_rel(&c3, d, h@, true, -1));
    }
}

/// A taper pass only adds cells, and never adds a cell of `h`.
pub proof fn lemma_taper_additive_hole_safe(a: &Corridor, b: &Corridor, h: Set<Point>, vertical: bool, sign: int)
    requires
        taper_rel(a, b, h, vertical, sign),
    ensures
        forall|q: Point| a.has(q) ==> #[trigger] b.has(q),
        forall|q: Point| h.contains(q) ==> #[trigger] b.has(q) == a.has(q),
{
    let env = choose|env: Seq<i32>| #![trigger is_lipschitz_envelope(env, taper_tops(a, h, vertical, sign))]
        is_lipschitz_envelope(env, taper_tops(a, h, vertical, sign)) && forall|q: Point|
            #[trigger] b.has(q) == (a.has(q) || taper_fills(a, h, vertical, sign, env, q));
    assert forall|q: Point| h.contains(q) implies #[trigger] b.has(q) == a.has(q) by {
        if taper_fills(a, h, vertical, sign, env, q) {
            let line = across(vertical, q);
            let ex = extent_spec(a, vertical, line, sign)->Some_0;
            assert(path_clear(h, vertical, line, ex, along(vertical, q), sign));
            lemma_line_pt_roundtrip(vertical, q);
            assert(!h.contains(line_pt(vertical, line, along(vertical, q))));
        }
    }
}

/// Whether every cell of the skeleton lies in the rasterizer's domain.
pub open spec fn skeleton_ok(skel: &CoarseSkeleton) -> bool {
    all_coarse_ok(skel.ring@) && all_coarse_ok(skel.hole@)
}

/// Rasterizes `skel`'s coarse ring and hole into the fine corridor `D`:
/// Stage 1 baseline `k×k` expansion, Stage 2 taper, Stage 2b pocket
/// absorption. `n` (the width floor) is not read by the geometry; it must
/// not exceed the block size `k`.
pub fn phase2_rasterize(skel: &CoarseSkeleton, k: i32, n: i32) -> (d: Corridor)
    requires
        skeleton_ok(skel),
        block_size_ok(k as int),
        n <= k,
    ensures
        d.wf(),
        box_small(&d),
        rasterized(skel.ring@, skel.hole@, k as int, &d),
        sealed_infield(skel.ring@, skel.hole@) ==> component_firsts(&d, true, false).len() == 1
            && component_firsts(&d, false, true).len() == 1,
{
    let (mut d, h) = stage1_baseline(&skel.ring, &skel.hole, k);
    let ghost d0 = d;
    stage2_taper(&mut d, &h);
    let ghost d1 = d;
    stage2b_absorb_pockets(&mut d, &h);
    proof {
        assert(taper_fills_chain(&d0, &d1, h@));
        assert(ring_box_ok(&d0, skel.ring@, k as int));
        if sealed_infield(skel.ring@, skel.hole@) {
            lemma_rasterized_topology(skel.ring@, skel.hole@, k as int, &d);
        }
    }
    d
}

/// `d` is the rasterization of coarse `ring`/`hole` at block size `k`:
/// some baseline `d0` over the ring's padded fine box holding exactly the
/// ring's blocks, tapered (East, West, North, South) into `d1`, with every
/// pocket of `d1` that misses the hole's blocks absorbed.
pub open spec fn rasterized(ring: Set<Point>, hole: Set<Point>, k: int, d: &Corridor) -> bool {
    exists|d0: Corridor, d1: Corridor|
        #![trigger ring_box_ok(&d0, ring, k), taper_fills_chain(&d0, &d1, blocks_of(hole, k))]
        ring_box_ok(&d0, ring, k) && d0.drivable() == blocks_of(ring, k) && taper_fills_chain(
            &d0,
            &d1,
            blocks_of(hole, k),
        ) && d.same_box(&d1) && forall|q: Point|
            #[trigger] d.has(q) == (d1.has(q) || pocket(&d1, blocks_of(hole, k), q))
}

/// Distinct coarse cells have disjoint blocks.
pub proof fn lemma_blocks_disjoint(p: Point, c1: Point, c2: Point, k: int)
    requires
        k >= 1,
        in_block(p, c1, k),
        in_block(p, c2, k),
    ensures
        c1 == c2,
{
    let (a, b) = (c1.0 as int, c2.0 as int);
    if a < b {
        assert(a * k + k <= b * k) by (nonlinear_arith)
            requires a < b, k >= 1;
    } else if b < a {
        assert(b * k + k <= a * k) by (nonlinear_arith)
            requires b < a, k >= 1;
    }
    let (e, f) = (c1.1 as int, c2.1 as int);
    if e < f {
        assert(e * k + k <= f * k) by (nonlinear_arith)
            requires e < f, k >= 1;
    } else if f < e {
        assert(f * k + k <= e * k) by (nonlinear_arith)
            requires f < e, k >= 1;
    }
}

/// Rasterization keeps every ring block drivable, and leaves every hole
/// block as the baseline had it — so when ring and hole are disjoint, no
/// hole cell becomes drivable.
pub proof fn lemma_rasterize_keeps_ring_and_infield(ring: Set<Point>, hole: Set<Point>, k: int, d: &Corridor)
    requires
        rasterized(ring, hole, k, d),
        k >= 1,
    ensures
        forall|q: Point| blocks_of(ring, k).contains(q) ==> #[trigger] d.has(q),
        forall|q: Point| #[trigger] blocks_of(hole, k).contains(q) ==> (d.has(q) == blocks_of(ring, k).contains(q)),
        ring.disjoint(hole) ==> forall|q: Point| #[trigger] blocks_of(hole, k).contains(q) ==> !d.has(q),
{
    let h = blocks_of(hole, k);
    let (d0, d1) = choose|d0: Corridor, d1: Corridor|
        #![trigger ring_box_ok(&d0, ring, k), taper_fills_chain(&d0, &d1, blocks_of(hole, k))]
        ring_box_ok(&d0, ring, k) && d0.drivable() == blocks_of(ring, k) && taper_fills_chain(
            &d0,
            &d1,
            blocks_of(hole, k),
        ) && d.same_box(&d1) && forall|q: Point|
            #[trigger] d.has(q) == (d1.has(q) || pocket(&d1, blocks_of(hole, k), q));
    let (c1, c2, c3) = choose|c1: Corridor, c2: Corridor, c3: Corridor|
        #![trigger taper_rel(&c1, &c2, h, false, -1), taper_rel(&c2, &c3, h, true, 1)]
        taper_rel(&d0, &c1, h, false, 1) && taper_rel(&c1, &c2, h, false, -1) && taper_rel(&c2, &c3, h, true, 1)
            && taper_rel(&c3, &d1, h, true, -1);
    lemma_taper_additive_hole_safe(&d0, &c1, h, false, 1);
    lemma_taper_additive_hole_safe(&c1, &c2, h, false, -1);
    lemma_taper_additive_hole_safe(&c2, &c3, h, true, 1);
    lemma_taper_additive_hole_safe(&c3, &d1, h, true, -1);
    assert forall|q: Point| blocks_of(ring, k).contains(q) implies #[trigger] d.has(q) by {
        assert(d0.drivable().contains(q));
    }
    assert forall|q: Point| #[trigger] h.contains(q) implies (d.has(q) == blocks_of(ring, k).contains(q)) by {
        assert(d0.drivable().contains(q) == d0.has(q));
        if pocket(&d1, h, q) {
            lemma_linked_refl(&d1, false, q);
        }
    }
    if ring.disjoint(hole) {
        assert forall|q: Point| #[trigger] h.contains(q) implies !d.has(q) by {
            if blocks_of(ring, k).contains(q) {
                let c = choose|c: Point| ring.contains(c) && #[trigger] in_block(q, c, k);
                let e = choose|c: Point| hole.contains(c) && #[trigger] in_block(q, c, k);
                lemma_blocks_disjoint(q, c, e, k);
            }
        }
    }
}

/// The infield stays open through the pipeline: rasterizing a skeleton the
/// first phase built leaves every cell of every hole block non-drivable.
pub proof fn lemma_built_skeleton_keeps_its_infield_open(skel: &CoarseSkeleton, l_min: int, k: int, d: &Corridor)
    requires
        skeleton_built(skel, l_min),
        rasterized(skel.ring@, skel.hole@, k, d),
        k >= 1,
    ensures
        forall|q: Point| #[trigger] blocks_of(skel.hole@, k).contains(q) ==> !d.has(q),
{
    lemma_rasterize_keeps_ring_and_infield(skel.ring@, skel.hole@, k, d);
}

/// Pocket absorption leaves no hole but the mask's: every bounded
/// component of the absorbed corridor's complement reaches a cell of `h`.
pub proof fn lemma_absorbed_holes_meet_mask(d1: &Corridor, h: Set<Point>, d: &Corridor)
    requires
        d.same_box(d1),
        forall|q: Point| #[trigger] d.has(q) == (d1.has(q) || pocket(d1, h, q)),
    ensures
        forall|q: Point| #[trigger] enclosed(d, false, q) ==> exists|r: Point| h.contains(r) && linked(d, false, q, r),
{
    assert forall|q: Point| #[trigger] enclosed(d, false, q) implies exists|r: Point| h.contains(r) && linked(d, false, q, r) by {
        assert(open_cell(d1, q));
        assert(!pocket(d1, h, q));
        let e = choose|e: Point| #[trigger] linked(d1, false, q, e) && !(!d1.on_border(e) && !h.contains(e));
        let s = choose|s: Seq<Point>| #[trigger] is_path(d1, false, s) && s[0] == q && s.last() == e;
        assert forall|i: int| 0 <= i < s.len() implies member(d, false, #[trigger] s[i]) by {
            let t = s.subrange(i, s.len() as int);
            assert(is_path(d1, false, t)) by {
                assert forall|k: int| 0 <= k < t.len() - 1 implies adjacent4(#[trigger] t[k], t[k + 1]) by {
                    assert(adjacent4(s[i + k], s[i + k + 1]));
                }
            }
            assert(linked(d1, false, s[i], e)) by {
                assert(t[0] == s[i] && t.last() == e);
            }
            assert(!pocket(d1, h, s[i]));
            assert(member(d1, false, s[i]));
        }
        assert(is_path(d, false, s));
        assert(linked(d, false, q, e));
        assert(!d.on_border(e));
        assert(h.contains(e));
    }
}

/// A rasterized corridor has no hole but the infield's: every bounded
/// component of its complement reaches a cell of the hole's blocks.
pub proof fn lemma_rasterized_holes_meet_infield(ring: Set<Point>, hole: Set<Point>, k: int, d: &Corridor)
    requires
        rasterized(ring, hole, k, d),
    ensures
        forall|q: Point| #[trigger] enclosed(d, false, q) ==> exists|r: Point| blocks_of(hole, k).contains(r) && linked(d, false, q, r),
{
    let (d0, d1) = choose|d0: Corridor, d1: Corridor|
        #![trigger ring_box_ok(&d0, ring, k), taper_fills_chain(&d0, &d1, blocks_of(hole, k))]
        ring_box_ok(&d0, ring, k) && d0.drivable() == blocks_of(ring, k) && taper_fills_chain(
            &d0,
            &d1,
            blocks_of(hole, k),
        ) && d.same_box(&d1) && forall|q: Point|
            #[trigger] d.has(q) == (d1.has(q) || pocket(&d1, blocks_of(hole, k), q));
    lemma_absorbed_holes_meet_mask(&d1, blocks_of(hole, k), d);
}

/// The first phase's skeletons rasterize to one closed loop: the corridor
/// is one 4-connected component around exactly one hole.
pub proof fn lemma_built_skeleton_rasterizes_to_one_loop(skel: &CoarseSkeleton, l_min: int, k: int, d: &Corridor)
    requires
        skeleton_built(skel, l_min),
        block_size_ok(k),
        rasterized(skel.ring@, skel.hole@, k, d),
    ensures
        component_firsts(d, true, false).len() == 1,
        component_firsts(d, false, true).len() == 1,
{
    assert(all_coarse_ok(skel.ring@) && all_coarse_ok(skel.hole@)) by {
        assert forall|c: Point| skel.ring@.contains(c) implies #[trigger] coarse_ok(c) by {}
        assert forall|c: Point| skel.hole@.contains(c) implies #[trigger] coarse_ok(c) by {}
    }
    lemma_rasterized_topology(skel.ring@, skel.hole@, k, d);
}

/// `d1` is `d0` after the four taper passes East, West, North, South.
pub open spec fn taper_fills_chain(d0: &Corridor, d1: &Corridor, h: Set<Point>) -> bool {
    exists|c1: Corridor, c2: Corridor, c3: Corridor|
        #![trigger taper_rel(&c1, &c2, h, false, -1), taper_rel(&c2, &c3, h, true, 1)]
        taper_rel(d0, &c1, h, false, 1) && taper_rel(&c1, &c2, h, false, -1) && taper_rel(&c2, &c3, h, true, 1)
            && taper_rel(&c3, d1, h, true, -1)
}

/// A rasterized corridor's box is the ring's coarse box scaled by `k` and
/// padded by one cell, so in the domain it lies within `2^28 + 2^14 + 1`
/// of the origin.
pub proof fn lemma_rasterized_box(ring: Set<Point>, hole: Set<Point>, k: int, d: &Corridor)
    requires
        rasterized(ring, hole, k, d),
        all_coarse_ok(ring),
        block_size_ok(k),
    ensures
        -0x1000_4001 <= d.ox(),
        d.ox() + d.w() <= 0x1000_4001,
        -0x1000_4001 <= d.oy(),
        d.oy() + d.h() <= 0x1000_4001,
{
    let (d0, d1) = choose|d0: Corridor, d1: Corridor|
        #![trigger ring_box_ok(&d0, ring, k), taper_fills_chain(&d0, &d1, blocks_of(hole, k))]
        ring_box_ok(&d0, ring, k) && d0.drivable() == blocks_of(ring, k) && taper_fills_chain(&d0, &d1, blocks_of(hole, k))
            && d.same_box(&d1) && forall|q: Point| #[trigger] d.has(q) == (d1.has(q) || pocket(&d1, blocks_of(hole, k), q));
    let h = blocks_of(hole, k);
    let (c1, c2, c3) = choose|c1: Corridor, c2: Corridor, c3: Corridor|
        #![trigger taper_rel(&c1, &c2, h, false, -1), taper_rel(&c2, &c3, h, true, 1)]
        taper_rel(&d0, &c1, h, false, 1) && taper_rel(&c1, &c2, h, false, -1) && taper_rel(&c2, &c3, h, true, 1)
            && taper_rel(&c3, &d1, h, true, -1);
    assert(d.same_box(&d0));
    if !ring.is_empty() {
        let (mx, bx, my, by) = choose|mx: int, bx: int, my: int, by: int|
            #![trigger is_min_x(ring, mx), is_max_x(ring, bx), is_min_y(ring, my), is_max_y(ring, by)]
            is_min_x(ring, mx) && is_max_x(ring, bx) && is_min_y(ring, my) && is_max_y(ring, by) && d0.ox() == mx * k - 1
                && d0.oy() == my * k - 1 && d0.ox() + d0.w() == (bx + 1) * k + 1 && d0.oy() + d0.h() == (by + 1) * k + 1;
        let p0 = choose|p: Point| ring.contains(p) && p.0 == mx;
        let p1 = choose|p: Point| ring.contains(p) && p.0 == bx;
        let p2 = choose|p: Point| ring.contains(p) && p.1 == my;
        let p3 = choose|p: Point| ring.contains(p) && p.1 == by;
        assert(coarse_ok(p0) && coarse_ok(p1) && coarse_ok(p2) && coarse_ok(p3));
        lemma_scale_bounds(mx, k);
        lemma_scale_bounds(bx, k);
        lemma_scale_bounds(my, k);
        lemma_scale_bounds(by, k);
    }
}

} // verus!
