//! Ф1 — the coarse skeleton: a coarse-block ring around an infield
//! polyomino, grown from a base strip by a seeded random stream.

use vstd::prelude::*;
use std::collections::BTreeSet;
use rand_xoshiro::Xoshiro256PlusPlus;
use crate::corridor::Corridor;
use crate::components::{scan_before, bounded_complement_components, cells_fit, component_count, component_firsts, enclosed, first_of_component};
use crate::geom::{adjacent4, neighbors4, sat, sat_add, sat_mul, sat_sub, side_delta, step_point, Point, RaceDir, Side, RACE_DIRS, SIDES};
use crate::points::{bounds, is_max_x, is_max_y, is_min_x, is_min_y, set_add, set_has, set_len, set_to_vec};
use crate::random::{seeded_generator, choose_race_dir, race_dir_draw, random_below, random_upto, upto_draw};
use crate::order::{points_ascending, sorted_points};
use crate::fallback::lemma_fallback_built;
use crate::topology::{lemma_sealed_of_accepted, sealed_infield};
use crate::widening::{lemma_inside_grows, lemma_ring_encloses, lemma_widened_outward, strictly_inside};
use crate::flood::{is_path, lemma_linked_refl, linked, member, open_cell};
use crate::raster::{block_point_spec, box_small, coarse_ok, pocket, stage2b_absorb_pockets, COARSE_LIMIT};

verus! {

broadcast use {vstd::std_specs::btree::group_btree_axioms, crate::corridor::Corridor::lemma_has_in_box};

/// A coarse annulus `ring` enclosing the infield polyomino `hole`, plus the
/// fixed traversal orientation.
pub struct CoarseSkeleton {
    /// The coarse-block ring.
    pub ring: BTreeSet<Point>,
    /// The enclosed infield polyomino (the ring's one hole).
    pub hole: BTreeSet<Point>,
    /// The fixed global traversal orientation.
    pub dir: RaceDir,
}

/// The supported domain floor for the minimum straight length.
pub const MIN_COARSE_STRAIGHT: i32 = 2;
/// The supported domain ceiling for the minimum straight length.
pub const MAX_COARSE_STRAIGHT: i32 = 64;
/// Minimum base-strip width, before the even rounding.
pub const MIN_BASE: i32 = 4;
/// Target total block count of the infield's growth (base blocks included).
pub const TARGET_BLOCKS: usize = 16;
/// Maximum outward widening drawn per side (inclusive).
pub const WIDEN_MAX: u32 = 3;
/// Same-stream retries of the run-length check before the rectangular
/// fallback.
pub const MAX_ATTEMPTS: u32 = 8;
/// Minimum fallback rectangle width.
pub const MIN_RECT_W: i32 = 4;
/// Fixed fallback rectangle height.
pub const MIN_RECT_H: i32 = 4;

/// `l_min` clamped into `[MIN_COARSE_STRAIGHT, MAX_COARSE_STRAIGHT]`.
pub open spec fn l_eff_of(l_min: int) -> int {
    if l_min < MIN_COARSE_STRAIGHT {
        MIN_COARSE_STRAIGHT as int
    } else if l_min > MAX_COARSE_STRAIGHT {
        MAX_COARSE_STRAIGHT as int
    } else {
        l_min
    }
}

/// The effective minimum straight keeps an `l_min` inside the supported
/// range as it is and otherwise takes the nearer end of the range.
pub proof fn lemma_l_eff_keeps_in_range(l_min: int)
    ensures
        MIN_COARSE_STRAIGHT <= l_eff_of(l_min) <= MAX_COARSE_STRAIGHT,
        MIN_COARSE_STRAIGHT <= l_min <= MAX_COARSE_STRAIGHT ==> l_eff_of(l_min) == l_min,
        l_min < MIN_COARSE_STRAIGHT ==> l_eff_of(l_min) == MIN_COARSE_STRAIGHT,
        l_min > MAX_COARSE_STRAIGHT ==> l_eff_of(l_min) == MAX_COARSE_STRAIGHT,
{
}

/// Clamps `l_min` into the supported coarse-block domain; every later
/// length use reads the clamped value.
pub fn clamp_l_min(l_min: i32) -> (r: i32)
    ensures
        r == l_eff_of(l_min as int),
        MIN_COARSE_STRAIGHT <= r <= MAX_COARSE_STRAIGHT,
        MIN_COARSE_STRAIGHT <= l_min <= MAX_COARSE_STRAIGHT ==> r == l_min,
        l_min < MIN_COARSE_STRAIGHT ==> r == MIN_COARSE_STRAIGHT,
        l_min > MAX_COARSE_STRAIGHT ==> r == MAX_COARSE_STRAIGHT,
{
    if l_min < MIN_COARSE_STRAIGHT {
        MIN_COARSE_STRAIGHT
    } else if l_min > MAX_COARSE_STRAIGHT {
        MAX_COARSE_STRAIGHT
    } else {
        l_min
    }
}

/// `max(l_eff, MIN_BASE)` rounded up to even.
pub open spec fn base_width_of(l_eff: int) -> int {
    let w = if l_eff > MIN_BASE { l_eff } else { MIN_BASE as int };
    w + w % 2
}

/// The base-strip width: `max(l_eff, MIN_BASE)` rounded up to even.
pub fn base_width(l_eff: i32) -> (r: i32)
    requires
        l_eff < i32::MAX,
    ensures
        r == base_width_of(l_eff as int),
{
    let w = if l_eff > MIN_BASE { l_eff } else { MIN_BASE };
    w + w % 2
}

/// `c` is one of the four 4-neighbors of `b` (coordinates saturating).
pub open spec fn step4(b: Point, c: Point) -> bool {
    c == step_point(b, 1, 0) || c == step_point(b, -1, 0) || c == step_point(b, 0, 1) || c
        == step_point(b, 0, -1)
}

/// The block-4-adjacent frontier of `blocks`, restricted to `j ≥ 1` and
/// excluding occupied blocks.
pub open spec fn frontier_of(blocks: Set<Point>) -> Set<Point> {
    Set::new(|c: Point| c.1 >= 1 && !blocks.contains(c) && exists|b: Point| blocks.contains(b) && #[trigger] step4(b, c))
}

fn add_if_frontier(blocks: &BTreeSet<Point>, f: &mut BTreeSet<Point>, c: Point)
    ensures
        final(f)@ == if c.1 >= 1 && !blocks@.contains(c) { old(f)@.insert(c) } else { old(f)@ },
{
    if c.1 >= 1 && !set_has(blocks, c) {
        set_add(f, c);
    }
}

/// The block-4-adjacent frontier of `blocks` (`j ≥ 1` only, occupied blocks
/// excluded), as an ordered set so a draw from it is reproducible.
pub fn block_frontier(blocks: &BTreeSet<Point>) -> (f: BTreeSet<Point>)
    ensures
        f@ == frontier_of(blocks@),
{
    let v = set_to_vec(blocks);
    let mut f: BTreeSet<Point> = BTreeSet::new();
    let mut i: usize = 0;
    while i < v.len()
        invariant
            i <= v@.len(),
            v@.to_set() == blocks@,
            f@ == Set::new(|c: Point| c.1 >= 1 && !blocks@.contains(c) && exists|k: int| 0 <= k < i && #[trigger] step4(v@[k], c)),
        decreases v@.len() - i,
    {
        let b = v[i];
        let ns = neighbors4(b);
        let ghost f0 = f@;
        add_if_frontier(blocks, &mut f, ns[0]);
        let ghost f1 = f@;
        add_if_frontier(blocks, &mut f, ns[1]);
        let ghost f2 = f@;
        add_if_frontier(blocks, &mut f, ns[2]);
        let ghost f3 = f@;
        add_if_frontier(blocks, &mut f, ns[3]);
        proof {
            assert(v@[i as int] == b);
            assert(ns@[0] == step_point(b, 1, 0));
            assert(ns@[1] == step_point(b, -1, 0));
            assert(ns@[2] == step_point(b, 0, 1));
            assert(ns@[3] == step_point(b, 0, -1));
            assert forall|c: Point| #[trigger] f@.contains(c) == (f0.contains(c) || (step4(b, c) && c.1 >= 1 && !blocks@.contains(c))) by {
                assert(f1.contains(c) == (f0.contains(c) || (c == ns@[0] && c.1 >= 1 && !blocks@.contains(c))));
                assert(f2.contains(c) == (f1.contains(c) || (c == ns@[1] && c.1 >= 1 && !blocks@.contains(c))));
                assert(f3.contains(c) == (f2.contains(c) || (c == ns@[2] && c.1 >= 1 && !blocks@.contains(c))));
            }
            assert forall|c: Point| #[trigger] f@.contains(c) == (c.1 >= 1 && !blocks@.contains(c) && exists|k: int| 0 <= k < i + 1 && #[trigger] step4(v@[k], c)) by {
                if f0.contains(c) {
                    let k = choose|k: int| 0 <= k < i && #[trigger] step4(v@[k], c);
                    assert(step4(v@[k], c));
                } else if step4(b, c) && c.1 >= 1 && !blocks@.contains(c) {
                    assert(step4(v@[i as int], c));
                }
                if c.1 >= 1 && !blocks@.contains(c) && exists|k: int| 0 <= k < i + 1 && #[trigger] step4(v@[k], c) {
                    let k = choose|k: int| 0 <= k < i + 1 && #[trigger] step4(v@[k], c);
                    if k < i {
                        assert(f0.contains(c));
                    }
                }
            }
            assert(f@ =~= Set::new(|c: Point| c.1 >= 1 && !blocks@.contains(c) && exists|k: int| 0 <= k < i + 1 && #[trigger] step4(v@[k], c)));
        }
        i = i + 1;
    }
    proof {
        assert forall|c: Point| #[trigger] f@.contains(c) == frontier_of(blocks@).contains(c) by {
            if f@.contains(c) {
                let k = choose|k: int| 0 <= k < v@.len() && #[trigger] step4(v@[k], c);
                assert(v@.to_set().contains(v@[k]));
            }
            if frontier_of(blocks@).contains(c) {
                let b = choose|b: Point| blocks@.contains(b) && #[trigger] step4(b, c);
                assert(v@.to_set().contains(b));
                let k = choose|k: int| 0 <= k < v@.len() && v@[k] == b;
                assert(step4(v@[k], c));
            }
        }
        assert(f@ =~= frontier_of(blocks@));
    }
    f
}

/// Every block of `blocks` lies within `[-n, n] × [0, n]`.
pub open spec fn blocks_within(blocks: Set<Point>, n: int) -> bool {
    forall|c: Point| blocks.contains(c) ==> -n <= c.0 <= n && 0 <= c.1 <= n
}

/// The steps a growth from `blocks` toward `target` blocks may still take:
/// the blocks missing.
pub open spec fn growth_fuel(blocks: Set<Point>, target: int) -> nat {
    if blocks.len() < target {
        (target - blocks.len()) as nat
    } else {
        0
    }
}

/// What the growth draws from generator state `g`: while fewer than
/// `target` blocks (and at most `fuel` steps) and a frontier remains, the
/// frontier block at the drawn index, counted in ascending order, joins;
/// then the blocks and the state after.
pub open spec fn grow_draws(blocks: Set<Point>, g: Xoshiro256PlusPlus, target: int, fuel: nat) -> (Set<Point>, Xoshiro256PlusPlus)
    decreases fuel,
{
    if fuel == 0 || blocks.len() >= target {
        (blocks, g)
    } else {
        let fv = sorted_points(frontier_of(blocks));
        if fv.len() == 0 {
            (blocks, g)
        } else {
            let (i, g2) = upto_draw(g, (fv.len() - 1) as u32);
            grow_draws(blocks.insert(fv[i as int]), g2, target, (fuel - 1) as nat)
        }
    }
}

/// Grows `blocks` by blocks drawn from its frontier, one at a time, until
/// `target` blocks are reached or the frontier is exhausted. Each draw is a
/// `u32` index into the frontier in ascending order.
pub fn grow_blocks(blocks: &mut BTreeSet<Point>, target: usize, rng: &mut Xoshiro256PlusPlus)
    requires
        blocks_within(old(blocks)@, old(blocks)@.len() as int),
        target <= 0x4000_0000,
    ensures
        (final(blocks)@, *final(rng)) == grow_draws(old(blocks)@, *old(rng), target as int, growth_fuel(old(blocks)@, target as int)),
        old(blocks)@.subset_of(final(blocks)@),
        forall|c: Point| #[trigger] final(blocks)@.contains(c) && !old(blocks)@.contains(c) ==> c.1 >= 1,
        final(blocks)@.len() >= target || frontier_of(final(blocks)@).is_empty(),
        final(blocks)@.len() <= if old(blocks)@.len() >= target { old(blocks)@.len() as int } else { target as int },
        blocks_within(final(blocks)@, final(blocks)@.len() as int),
        final(blocks)@.finite(),
{
    let ghost b0 = blocks@;
    let ghost g0 = *rng;
    let mut len = set_len(blocks);
    while len < target
        invariant
            grow_draws(blocks@, *rng, target as int, growth_fuel(blocks@, target as int)) == grow_draws(b0, g0, target as int, growth_fuel(b0, target as int)),
            len == blocks@.len(),
            blocks@.finite(),
            b0.subset_of(blocks@),
            forall|c: Point| #[trigger] blocks@.contains(c) && !b0.contains(c) ==> c.1 >= 1,
            blocks@.len() <= if b0.len() >= target { b0.len() as int } else { target as int },
            blocks_within(blocks@, blocks@.len() as int),
            target <= 0x4000_0000,
        ensures
            len >= target || frontier_of(blocks@).is_empty(),
            grow_draws(blocks@, *rng, target as int, growth_fuel(blocks@, target as int)) == grow_draws(b0, g0, target as int, growth_fuel(b0, target as int)),
        decreases target - len,
    {
        let f = block_frontier(blocks);
        let fv = set_to_vec(&f);
        let n_usize = fv.len();
        if n_usize == 0 {
            proof {
                assert(f@ =~= Set::empty()) by {
                    assert forall|c: Point| !f@.contains(c) by {
                        if f@.contains(c) {
                            assert(fv@.to_set().contains(c));
                        }
                    }
                }
            }
            proof {
                assert(fv@.len() == 0);
            }
            break;
        }
        if n_usize > 0xffff_ffff {
            // the frontier is at most four times the blocks, below target * 4
            proof {
                assert(false) by {
                    lemma_frontier_bounded(blocks@);
                    assert(fv@.to_set() == f@);
                    fv@.unique_seq_to_set();
                }
            }
            break;
        }
        let n = n_usize as u32;
        let ghost old_rng_state = *rng;
        let idx = random_below(rng, n);
        let c = fv[idx as usize];
        proof {
            assert(f@.contains(c)) by {
                assert(fv@.to_set().contains(fv@[idx as int]));
            }
            let b = choose|b: Point| blocks@.contains(b) && #[trigger] step4(b, c);
            assert(!blocks@.contains(c));
        }
        let ghost pre = blocks@;
        proof {
            assert(fv@ == sorted_points(frontier_of(pre)));
            assert(growth_fuel(pre, target as int) >= 1);
            assert(grow_draws(pre, old_rng_state, target as int, growth_fuel(pre, target as int)) == grow_draws(pre.insert(c), *rng, target as int, (growth_fuel(pre, target as int) - 1) as nat));
        }
        set_add(blocks, c);
        len = len + 1;
        proof {
            assert forall|q: Point| blocks@.contains(q) implies -(len as int) <= q.0 <= len && 0 <= q.1 <= len by {
                if q == c {
                    let b = choose|b: Point| pre.contains(b) && #[trigger] step4(b, c);
                    assert(-(len - 1) <= b.0 <= len - 1 && 0 <= b.1 <= len - 1);
                } else {
                    assert(pre.contains(q));
                }
            }
        }
    }
    proof {
        if len < target {
            let fv = sorted_points(frontier_of(blocks@));
            assert(points_ascending(Seq::<Point>::empty()) && Seq::<Point>::empty().to_set() =~= frontier_of(blocks@));
            if fv.len() > 0 {
                assert(fv.to_set().contains(fv[0]));
            }
        }
    }
}

/// The frontier holds at most four blocks per block.
pub proof fn lemma_frontier_bounded(blocks: Set<Point>)
    requires
        blocks.finite(),
    ensures
        frontier_of(blocks).finite(),
        frontier_of(blocks).len() <= 4 * blocks.len(),
    decreases blocks.len(),
{
    if blocks.is_empty() {
        assert(frontier_of(blocks) =~= Set::empty());
    } else {
        let b = blocks.choose();
        let rest = blocks.remove(b);
        lemma_frontier_bounded(rest);
        let near = set![step_point(b, 1, 0), step_point(b, -1, 0), step_point(b, 0, 1), step_point(b, 0, -1)];
        assert(frontier_of(blocks).subset_of(frontier_of(rest).union(near))) by {
            assert forall|c: Point| #[trigger] frontier_of(blocks).contains(c) implies frontier_of(rest).union(near).contains(c) by {
                let b2 = choose|b2: Point| blocks.contains(b2) && #[trigger] step4(b2, c);
                if b2 != b {
                    assert(rest.contains(b2));
                }
            }
        }
        let n1 = Set::<Point>::empty().insert(step_point(b, 1, 0));
        let n2 = n1.insert(step_point(b, -1, 0));
        let n3 = n2.insert(step_point(b, 0, 1));
        assert(near == n3.insert(step_point(b, 0, -1)));
        assert(n1.len() == 1);
        assert(n2.len() <= 2);
        assert(n3.len() <= 3);
        assert(near.len() <= 4);
        vstd::set_lib::lemma_len_union(frontier_of(rest), near);
        vstd::set_lib::lemma_len_subset(frontier_of(blocks), frontier_of(rest).union(near));
    }
}

/// `p` is one of the four cells of even-aligned block `b` (coordinates
/// saturating).
pub open spec fn block_cell(b: Point, p: Point) -> bool {
    p == block_point_spec(b, 2, 0, 0) || p == block_point_spec(b, 2, 1, 0) || p == block_point_spec(b, 2, 0, 1)
        || p == block_point_spec(b, 2, 1, 1)
}

/// The cells of a set of even-aligned blocks.
pub open spec fn cells_of(blocks: Set<Point>) -> Set<Point> {
    Set::new(|p: Point| exists|b: Point| blocks.contains(b) && #[trigger] block_cell(b, p))
}

/// Expands a set of even-aligned block coordinates to their four cells
/// each: `(2i, 2j), (2i+1, 2j), (2i, 2j+1), (2i+1, 2j+1)`.
pub fn cells_of_blocks(blocks: &BTreeSet<Point>) -> (r: BTreeSet<Point>)
    ensures
        r@ == cells_of(blocks@),
{
    let v = set_to_vec(blocks);
    let mut r: BTreeSet<Point> = BTreeSet::new();
    let mut i: usize = 0;
    while i < v.len()
        invariant
            i <= v@.len(),
            v@.to_set() == blocks@,
            r@ == Set::new(|p: Point| exists|k: int| 0 <= k < i && #[trigger] block_cell(v@[k], p)),
        decreases v@.len() - i,
    {
        let b = v[i];
        let x = sat_mul(b.0, 2);
        let y = sat_mul(b.1, 2);
        let ghost r0 = r@;
        set_add(&mut r, (x, y));
        set_add(&mut r, (sat_add(x, 1), y));
        set_add(&mut r, (x, sat_add(y, 1)));
        set_add(&mut r, (sat_add(x, 1), sat_add(y, 1)));
        proof {
            assert(v@[i as int] == b);
            assert forall|p: Point| #[trigger] r@.contains(p) == (exists|k: int| 0 <= k < i + 1 && #[trigger] block_cell(v@[k], p)) by {
                if r0.contains(p) {
                    let k = choose|k: int| 0 <= k < i && #[trigger] block_cell(v@[k], p);
                    assert(block_cell(v@[k], p));
                } else if block_cell(b, p) {
                    assert(block_cell(v@[i as int], p));
                }
                if exists|k: int| 0 <= k < i + 1 && #[trigger] block_cell(v@[k], p) {
                    let k = choose|k: int| 0 <= k < i + 1 && #[trigger] block_cell(v@[k], p);
                    if k < i {
                        assert(r0.contains(p));
                    }
                }
            }
            assert(r@ =~= Set::new(|p: Point| exists|k: int| 0 <= k < i + 1 && #[trigger] block_cell(v@[k], p)));
        }
        i = i + 1;
    }
    proof {
        assert forall|p: Point| #[trigger] r@.contains(p) == cells_of(blocks@).contains(p) by {
            if r@.contains(p) {
                let k = choose|k: int| 0 <= k < v@.len() && #[trigger] block_cell(v@[k], p);
                assert(v@.to_set().contains(v@[k]));
            }
            if cells_of(blocks@).contains(p) {
                let b = choose|b: Point| blocks@.contains(b) && #[trigger] block_cell(b, p);
                assert(v@.to_set().contains(b));
                let k = choose|k: int| 0 <= k < v@.len() && v@[k] == b;
                assert(block_cell(v@[k], p));
            }
        }
        assert(r@ =~= cells_of(blocks@));
    }
    r
}

/// Every point of `s`, padded by `margin` on every side, lies in the
/// coarse domain.
pub open spec fn padded_in_domain(s: Set<Point>, margin: int) -> bool {
    forall|c: Point| #[trigger] s.contains(c) ==> -COARSE_LIMIT + margin <= c.0 <= COARSE_LIMIT - margin
        && -COARSE_LIMIT + margin <= c.1 <= COARSE_LIMIT - margin
}

/// Every point of `s`, padded by `margin` on every side and one cell past
/// that, keeps its coordinates inside `i32`.
pub open spec fn padded_in_i32(s: Set<Point>, margin: int) -> bool {
    forall|c: Point| #[trigger] s.contains(c) ==> i32::MIN + margin < c.0 && c.0 + margin + 1 < i32::MAX
        && i32::MIN + margin < c.1 && c.1 + margin + 1 < i32::MAX
}

/// `d` is the corridor over the bounding box of `cells`, expanded by
/// `margin` on every side, with exactly `cells` drivable; for empty `cells`
/// it is a `1×1` box at the origin with nothing drivable.
pub open spec fn cells_corridor(d: &Corridor, cells: Set<Point>, margin: int) -> bool {
    &&& d.wf()
    &&& forall|q: Point| #[trigger] d.has(q) == cells.contains(q)
    &&& if cells.is_empty() {
        d.ox() == 0 && d.oy() == 0 && d.w() == 1 && d.h() == 1
    } else {
        exists|mx: int, bx: int, my: int, by: int|
            #![trigger is_min_x(cells, mx), is_max_x(cells, bx), is_min_y(cells, my), is_max_y(cells, by)]
            is_min_x(cells, mx) && is_max_x(cells, bx) && is_min_y(cells, my) && is_max_y(cells, by)
                && d.ox() == mx - margin && d.oy() == my - margin && d.ox() + d.w() == bx + 1 + margin
                && d.oy() + d.h() == by + 1 + margin
    }
}

/// Builds the corridor over the bounding box of `cells`, expanded by
/// `margin` cells on every side, with exactly `cells` drivable. An empty
/// `cells` yields a `1×1` corridor at the origin with nothing drivable.
pub fn corridor_from_cells(cells: &BTreeSet<Point>, margin: i32) -> (d: Corridor)
    requires
        padded_in_i32(cells@, margin as int),
        0 <= margin <= COARSE_LIMIT,
    ensures
        cells_corridor(&d, cells@, margin as int),
        box_small(&d),
        padded_in_domain(cells@, margin as int) ==> cells_fit(&d),
{
    match bounds(cells) {
        None => {
            Corridor::new((0, 0), 1, 1)
        },
        Some((min_x, max_x, min_y, max_y)) => {
            proof {
                let c0 = choose|p: Point| cells@.contains(p) && p.0 == min_x;
                let c1 = choose|p: Point| cells@.contains(p) && p.0 == max_x;
                let c2 = choose|p: Point| cells@.contains(p) && p.1 == min_y;
                let c3 = choose|p: Point| cells@.contains(p) && p.1 == max_y;
                assert(cells@.contains(c0) && cells@.contains(c1) && cells@.contains(c2) && cells@.contains(c3));
            }
            let ox = min_x - margin;
            let oy = min_y - margin;
            let width = (max_x as i64 - min_x as i64 + 1 + 2 * margin as i64) as usize;
            let height = (max_y as i64 - min_y as i64 + 1 + 2 * margin as i64) as usize;
            let mut d = Corridor::new((ox, oy), width, height);
            proof {
                if padded_in_domain(cells@, margin as int) {
                    let c0 = choose|p: Point| cells@.contains(p) && p.0 == min_x;
                    let c1 = choose|p: Point| cells@.contains(p) && p.0 == max_x;
                    let c2 = choose|p: Point| cells@.contains(p) && p.1 == min_y;
                    let c3 = choose|p: Point| cells@.contains(p) && p.1 == max_y;
                    assert(width <= 32769 && height <= 32769);
                    assert(width * height <= 0x4001_0001) by (nonlinear_arith)
                        requires width <= 32769, height <= 32769;
                    assert(0x4001_0001 <= usize::MAX);
                }
            }
            let v = set_to_vec(cells);
            let mut i: usize = 0;
            while i < v.len()
                invariant
                    i <= v@.len(),
                    v@.to_set() == cells@,
                    d.wf(),
                    d.ox() == ox && d.oy() == oy && d.w() == width && d.h() == height,
                    is_min_x(cells@, min_x as int) && is_max_x(cells@, max_x as int) && is_min_y(cells@, min_y as int) && is_max_y(cells@, max_y as int),
                    ox == min_x - margin && oy == min_y - margin,
                    0 <= margin <= COARSE_LIMIT,
                    width == max_x - min_x + 1 + 2 * margin,
                    height == max_y - min_y + 1 + 2 * margin,
                    forall|q: Point| #[trigger] d.has(q) == exists|k: int| 0 <= k < i && v@[k] == q,
                decreases v@.len() - i,
            {
                let p = v[i];
                proof {
                    assert(v@.to_set().contains(p));
                    assert(cells@.contains(p));
                    assert(min_x <= p.0 <= max_x && min_y <= p.1 <= max_y);
                    assert(d.ox() <= p.0 < d.ox() + d.w());
                    assert(d.oy() <= p.1 < d.oy() + d.h());
                    assert(d.in_box(p));
                }
                d.set(p, true);
                proof {
                    assert forall|q: Point| #[trigger] d.has(q) == exists|k: int| 0 <= k < i + 1 && v@[k] == q by {
                        if q == p {
                            assert(v@[i as int] == q);
                        }
                        if exists|k: int| 0 <= k < i + 1 && v@[k] == q {
                            let k = choose|k: int| 0 <= k < i + 1 && v@[k] == q;
                            if k < i {
                            }
                        }
                    }
                }
                i = i + 1;
            }
            proof {
                assert forall|q: Point| #[trigger] d.has(q) == cells@.contains(q) by {
                    if cells@.contains(q) {
                        assert(v@.to_set().contains(q));
                        let k = choose|k: int| 0 <= k < v@.len() && v@[k] == q;
                    }
                    if d.has(q) {
                        let k = choose|k: int| 0 <= k < v@.len() && v@[k] == q;
                        assert(v@.to_set().contains(v@[k]));
                    }
                }
                assert(!cells@.is_empty()) by {
                    assert(cells@.contains(v@[0]) || v@.len() == 0);
                    let c0 = choose|p: Point| cells@.contains(p) && p.0 == min_x;
                }
            }
            d
        },
    }
}

/// The drivable cells of `d`, as an ordered set.
pub fn drivable_cells(d: &Corridor) -> (r: BTreeSet<Point>)
    requires
        d.wf(),
        box_small(d),
    ensures
        r@ == d.drivable(),
{
    let origin = d.origin();
    let w = d.width();
    let h = d.height();
    let mut r: BTreeSet<Point> = BTreeSet::new();
    proof {
        assert(r@ =~= Set::new(|q: Point| d.has(q) && q.1 - d.oy() < 0));
    }
    let mut by: usize = 0;
    while by < h
        invariant
            d.wf(),
            box_small(d),
            origin.0 == d.ox() && origin.1 == d.oy() && w == d.w() && h == d.h(),
            by <= h,
            r@ == Set::new(|q: Point| d.has(q) && q.1 - d.oy() < by),
        decreases h - by,
    {
        let mut bx: usize = 0;
        proof {
            assert(r@ =~= Set::new(|q: Point| d.has(q) && (q.1 - d.oy() < by || (q.1 - d.oy() == by && q.0 - d.ox() < 0))));
        }
        while bx < w
            invariant
                d.wf(),
                box_small(d),
                origin.0 == d.ox() && origin.1 == d.oy() && w == d.w() && h == d.h(),
                by < h,
                bx <= w,
                r@ == Set::new(|q: Point| d.has(q) && (q.1 - d.oy() < by || (q.1 - d.oy() == by && q.0 - d.ox() < bx))),
            decreases w - bx,
        {
            let p: Point = ((origin.0 as i64 + bx as i64) as i32, (origin.1 as i64 + by as i64) as i32);
            let ghost r0 = r@;
            if d.contains(p) {
                set_add(&mut r, p);
            }
            proof {
                assert(p.0 - d.ox() == bx && p.1 - d.oy() == by);
                assert(r@ =~= Set::new(|q: Point| d.has(q) && (q.1 - d.oy() < by || (q.1 - d.oy() == by && q.0 - d.ox() < bx + 1))));
            }
            bx = bx + 1;
        }
        proof {
            assert(r@ =~= Set::new(|q: Point| d.has(q) && q.1 - d.oy() < by + 1));
        }
        by = by + 1;
    }
    proof {
        assert(r@ =~= d.drivable());
    }
    r
}

/// `r` is `p` with every bounded hole of its complement filled in: the
/// drivable cells and bounded pockets of the corridor over `p` padded by
/// one cell (`p` itself when empty).
#[verifier::opaque]
pub open spec fn holes_filled(p: Set<Point>, r: Set<Point>) -> bool {
    if p.is_empty() {
        r == p
    } else {
        exists|d: Corridor| #[trigger] cells_corridor(&d, p, 1) && r == Set::new(|q: Point| d.has(q) || pocket(&d, Set::empty(), q))
    }
}

/// The hole-filled set of `p` (see [`holes_filled`]).
pub open spec fn filled_of(p: Set<Point>) -> Set<Point> {
    choose|r: Set<Point>| holes_filled(p, r)
}

/// Pockets depend on the box and the drivable cells alone.
proof fn lemma_pocket_by_cells(d1: &Corridor, d2: &Corridor, h: Set<Point>, q: Point)
    requires
        d1.same_box(d2),
        forall|x: Point| #[trigger] d1.has(x) == d2.has(x),
    ensures
        pocket(d1, h, q) == pocket(d2, h, q),
{
    assert forall|s: Seq<Point>| #[trigger] is_path(d1, false, s) == is_path(d2, false, s) by {
        if is_path(d1, false, s) {
            assert forall|i: int| 0 <= i < s.len() implies member(d2, false, #[trigger] s[i]) by {
                assert(member(d1, false, s[i]));
            }
        }
        if is_path(d2, false, s) {
            assert forall|i: int| 0 <= i < s.len() implies member(d1, false, #[trigger] s[i]) by {
                assert(member(d2, false, s[i]));
            }
        }
    }
    assert forall|r: Point| #[trigger] linked(d1, false, q, r) == linked(d2, false, q, r) by {
        if linked(d1, false, q, r) {
            let s = choose|s: Seq<Point>| #[trigger] is_path(d1, false, s) && s[0] == q && s.last() == r;
            assert(is_path(d2, false, s));
        }
        if linked(d2, false, q, r) {
            let s = choose|s: Seq<Point>| #[trigger] is_path(d2, false, s) && s[0] == q && s.last() == r;
            assert(is_path(d1, false, s));
        }
    }
    if pocket(d1, h, q) {
        assert forall|r: Point| #[trigger] linked(d2, false, q, r) implies !d2.on_border(r) && !h.contains(r) by {
            assert(linked(d1, false, q, r));
        }
    }
    if pocket(d2, h, q) {
        assert forall|r: Point| #[trigger] linked(d1, false, q, r) implies !d1.on_border(r) && !h.contains(r) by {
            assert(linked(d2, false, q, r));
        }
    }
}

/// Hole filling has one result.
pub proof fn lemma_holes_filled_unique(p: Set<Point>, r1: Set<Point>, r2: Set<Point>)
    requires
        holes_filled(p, r1),
        holes_filled(p, r2),
    ensures
        r1 == r2,
{
    reveal(holes_filled);
    if !p.is_empty() {
        let d1 = choose|d: Corridor| #[trigger] cells_corridor(&d, p, 1) && r1 == Set::new(|q: Point| d.has(q) || pocket(&d, Set::empty(), q));
        let d2 = choose|d: Corridor| #[trigger] cells_corridor(&d, p, 1) && r2 == Set::new(|q: Point| d.has(q) || pocket(&d, Set::empty(), q));
        lemma_cells_corridor_unique(&d1, &d2, p, 1);
        assert forall|q: Point| r1.contains(q) == r2.contains(q) by {
            lemma_pocket_by_cells(&d1, &d2, Set::empty(), q);
        }
        assert(r1 =~= r2);
    }
}

/// Fills every bounded 4-connected component of `p`'s complement into `p`,
/// so the result has no holes. The flood is confined to `p`'s bounding box
/// padded by one cell, whose border is entirely outside `p`: a component
/// touching it is the unbounded outside, never filled.
pub fn fill_holes(p: &BTreeSet<Point>) -> (r: BTreeSet<Point>)
    requires
        padded_in_i32(p@, 1),
    ensures
        holes_filled(p@, r@),
        r@ == filled_of(p@),
{
    proof {
        reveal(holes_filled);
    }
    if set_len(p) == 0 {
        let r = p.clone();
        proof {
            assert(p@ =~= Set::empty());
            assert(holes_filled(p@, r@));
            lemma_holes_filled_unique(p@, r@, filled_of(p@));
        }
        return r;
    }
    let mut d = corridor_from_cells(p, 1);
    let ghost d0 = d;
    let empty: BTreeSet<Point> = BTreeSet::new();
    stage2b_absorb_pockets(&mut d, &empty);
    let r = drivable_cells(&d);
    proof {
        assert(empty@ =~= Set::empty());
        assert(r@ =~= Set::new(|q: Point| d0.has(q) || pocket(&d0, Set::empty(), q)));
        assert(holes_filled(p@, r@));
        lemma_holes_filled_unique(p@, r@, filled_of(p@));
    }
    r
}

/// A filled set has no holes: over the corridor of the result, padded by one
/// cell, no component of the complement is bounded.
pub proof fn lemma_filled_has_no_holes(p: Set<Point>, r: Set<Point>, d2: &Corridor)
    requires
        holes_filled(p, r),
        cells_corridor(d2, r, 1),
    ensures
        component_firsts(d2, false, true) =~= Set::<Point>::empty(),
{
    reveal(holes_filled);
    if p.is_empty() {
        assert forall|q: Point| !#[trigger] component_firsts(d2, false, true).contains(q) by {
            if component_firsts(d2, false, true).contains(q) {
                lemma_linked_refl(d2, false, q);
                assert(d2.on_border(q));
            }
        }
        return;
    }
    let d0 = choose|d: Corridor| #[trigger] cells_corridor(&d, p, 1) && r == Set::new(|q: Point| d.has(q) || pocket(&d, Set::empty(), q));
    lemma_filled_same_box(p, r, &d0, d2);
    assert forall|q: Point| !#[trigger] component_firsts(d2, false, true).contains(q) by {
        if component_firsts(d2, false, true).contains(q) {
            assert(enclosed(d2, false, q));
            assert(!r.contains(q));
            assert(open_cell(&d0, q));
            assert(!pocket(&d0, Set::empty(), q));
            let e = choose|e: Point| #[trigger] linked(&d0, false, q, e) && !(!d0.on_border(e) && !Set::<Point>::empty().contains(e));
            let s = choose|s: Seq<Point>| #[trigger] is_path(&d0, false, s) && s[0] == q && s.last() == e;
            assert forall|i: int| 0 <= i < s.len() implies member(d2, false, #[trigger] s[i]) by {
                let t = s.subrange(i, s.len() as int);
                assert(is_path(&d0, false, t)) by {
                    assert forall|k: int| 0 <= k < t.len() - 1 implies adjacent4(#[trigger] t[k], t[k + 1]) by {
                        assert(adjacent4(s[i + k], s[i + k + 1]));
                    }
                }
                assert(linked(&d0, false, s[i], e)) by {
                    assert(t[0] == s[i] && t.last() == e);
                }
                assert(!pocket(&d0, Set::empty(), s[i]));
                assert(member(&d0, false, s[i]));
            }
            assert(is_path(d2, false, s));
            assert(linked(d2, false, q, e));
        }
    }
}

proof fn lemma_filled_has_no_holes_anywhere(p: Set<Point>, r: Set<Point>)
    requires
        holes_filled(p, r),
    ensures
        forall|d: Corridor| #[trigger] cells_corridor(&d, r, 1) ==> component_firsts(&d, false, true) =~= Set::<Point>::empty(),
{
    assert forall|d: Corridor| #[trigger] cells_corridor(&d, r, 1) implies component_firsts(&d, false, true) =~= Set::<Point>::empty() by {
        lemma_filled_has_no_holes(p, r, &d);
    }
}

/// The filled set keeps `p`'s bounding box: every filled cell lies strictly
/// inside `p`'s padded box, so both corridors share one box.
proof fn lemma_filled_same_box(p: Set<Point>, r: Set<Point>, d0: &Corridor, d2: &Corridor)
    requires
        !p.is_empty(),
        cells_corridor(d0, p, 1),
        cells_corridor(d2, r, 1),
        r == Set::new(|q: Point| d0.has(q) || pocket(d0, Set::empty(), q)),
    ensures
        d2.ox() == d0.ox() && d2.oy() == d0.oy() && d2.w() == d0.w() && d2.h() == d0.h(),
{
    let (mx, bx, my, by) = choose|mx: int, bx: int, my: int, by: int|
        #![trigger is_min_x(p, mx), is_max_x(p, bx), is_min_y(p, my), is_max_y(p, by)]
        is_min_x(p, mx) && is_max_x(p, bx) && is_min_y(p, my) && is_max_y(p, by)
            && d0.ox() == mx - 1 && d0.oy() == my - 1 && d0.ox() + d0.w() == bx + 1 + 1 && d0.oy() + d0.h() == by + 1 + 1;
    assert forall|q: Point| r.contains(q) implies mx <= q.0 <= bx && my <= q.1 <= by by {
        if !d0.has(q) {
            assert(pocket(d0, Set::empty(), q));
            lemma_linked_refl(d0, false, q);
        }
    }
    let a = choose|a: Point| p.contains(a) && a.0 == mx;
    let b = choose|b: Point| p.contains(b) && b.0 == bx;
    let c = choose|c: Point| p.contains(c) && c.1 == my;
    let e = choose|e: Point| p.contains(e) && e.1 == by;
    assert(r.contains(a) && r.contains(b) && r.contains(c) && r.contains(e));
    assert(is_min_x(r, mx) && is_max_x(r, bx) && is_min_y(r, my) && is_max_y(r, by));
    assert(!r.is_empty()) by {
        assert(r.contains(a));
    }
    let (mx2, bx2, my2, by2) = choose|mx: int, bx: int, my: int, by: int|
        #![trigger is_min_x(r, mx), is_max_x(r, bx), is_min_y(r, my), is_max_y(r, by)]
        is_min_x(r, mx) && is_max_x(r, bx) && is_min_y(r, my) && is_max_y(r, by)
            && d2.ox() == mx - 1 && d2.oy() == my - 1 && d2.ox() + d2.w() == bx + 1 + 1 && d2.oy() + d2.h() == by + 1 + 1;
    let a2 = choose|a: Point| r.contains(a) && a.0 == mx2;
    let b2 = choose|b: Point| r.contains(b) && b.0 == bx2;
    let c2 = choose|c: Point| r.contains(c) && c.1 == my2;
    let e2 = choose|e: Point| r.contains(e) && e.1 == by2;
}

/// The base strip's blocks: `(i, 0)` for `0 ≤ i < nb`.
pub open spec fn base_blocks(nb: int) -> Set<Point> {
    Set::new(|c: Point| c.1 == 0 && 0 <= c.0 < nb)
}

/// `blocks` grew from the base strip of `nb` blocks: it holds the strip,
/// every other block lies at `j ≥ 1`, and all lie within `[-32, 32] × [0, 32]`.
pub open spec fn grown_from_base(blocks: Set<Point>, nb: int) -> bool {
    &&& base_blocks(nb).subset_of(blocks)
    &&& forall|c: Point| #[trigger] blocks.contains(c) && !base_blocks(nb).contains(c) ==> c.1 >= 1
    &&& blocks_within(blocks, 32)
}

/// The shape every infield `P` has: nothing below `y = 0`, and at `y ≤ 1`
/// exactly the base strip `[0, base_w) × {0, 1}` — growth and hole filling
/// never reach the strip's rows, so its south edge stays on the boundary.
pub open spec fn infield_shape(p: Set<Point>, base_w: int) -> bool {
    &&& forall|q: Point| #[trigger] p.contains(q) ==> q.1 >= 0
    &&& forall|q: Point| #[trigger] p.contains(q) && q.1 <= 1 ==> 0 <= q.0 < base_w
    &&& forall|q: Point| 0 <= q.0 < base_w && 0 <= q.1 <= 1 ==> #[trigger] p.contains(q)
}

/// Every point of `s` lies within `[-n, n]²`.
pub open spec fn within(s: Set<Point>, n: int) -> bool {
    forall|c: Point| #[trigger] s.contains(c) ==> -n <= c.0 <= n && -n <= c.1 <= n
}

/// The row-major index of `p` in the square of side `2n + 1` centred on
/// the origin.
spec fn square_index(p: Point, n: int) -> int {
    (p.0 + n) * (2 * n + 1) + (p.1 + n)
}

/// The point of the square at row-major index `i`.
spec fn square_point(i: int, n: int) -> Point {
    ((i / (2 * n + 1) - n) as i32, (i % (2 * n + 1) - n) as i32)
}

/// The index of a point of the square lies in range and leads back to it.
proof fn lemma_square_index(p: Point, n: int)
    requires
        n >= 0,
        -n <= p.0 <= n,
        -n <= p.1 <= n,
    ensures
        0 <= square_index(p, n) < (2 * n + 1) * (2 * n + 1),
        square_point(square_index(p, n), n) == p,
{
    let w = 2 * n + 1;
    let (a, b) = (p.0 + n, p.1 + n);
    assert(0 <= a * w + b < w * w) by (nonlinear_arith)
        requires 0 <= a < w, 0 <= b < w;
    vstd::arithmetic::div_mod::lemma_fundamental_div_mod_converse(a * w + b, w, a, b);
}

/// A finite set of points within `n` of the origin holds at most
/// `(2n + 1)²` of them.
pub proof fn lemma_within_len(s: Set<Point>, n: int)
    requires
        n >= 0,
        within(s, n),
    ensures
        s.finite(),
        s.len() <= (2 * n + 1) * (2 * n + 1),
{
    let total = (2 * n + 1) * (2 * n + 1);
    let range = vstd::set_lib::set_int_range(0, total);
    vstd::set_lib::lemma_int_range(0, total);
    let f = |p: Point| square_index(p, n);
    let g = |i: int| square_point(i, n);
    let square = range.map(g);
    range.lemma_map_finite(g);
    assert(s.subset_of(square)) by {
        assert forall|p: Point| #[trigger] s.contains(p) implies square.contains(p) by {
            lemma_square_index(p, n);
            assert(range.contains(square_index(p, n)));
            assert(g(square_index(p, n)) == p);
        }
    }
    vstd::set_lib::lemma_len_subset(s, square);
    let y = s.map(f);
    assert(vstd::relations::injective_on(f, s)) by {
        assert forall|p: Point, q: Point| s.contains(p) && s.contains(q) && #[trigger] f(p) == #[trigger] f(q) implies p == q by {
            lemma_square_index(p, n);
            lemma_square_index(q, n);
        }
    }
    vstd::set_lib::lemma_map_size(s, y, f);
    assert(y.subset_of(range)) by {
        assert forall|i: int| #[trigger] y.contains(i) implies range.contains(i) by {
            let p = choose|p: Point| s.contains(p) && f(p) == i;
            lemma_square_index(p, n);
        }
    }
    vstd::set_lib::lemma_len_subset(y, range);
}

proof fn lemma_cells_shape(blocks: Set<Point>, nb: int)
    requires
        grown_from_base(blocks, nb),
        1 <= nb <= 32,
    ensures
        within(cells_of(blocks), 66),
        forall|q: Point| #[trigger] cells_of(blocks).contains(q) ==> q.1 >= 0 && (q.1 <= 1 ==> 0 <= q.0 < 2 * nb),
        forall|q: Point| 0 <= q.0 < 2 * nb && 0 <= q.1 <= 1 ==> #[trigger] cells_of(blocks).contains(q),
{
    assert forall|q: Point| #[trigger] cells_of(blocks).contains(q) implies -66 <= q.0 <= 66 && -66 <= q.1 <= 66 && q.1 >= 0 && (q.1 <= 1 ==> 0 <= q.0 < 2 * nb) by {
        let b = choose|b: Point| blocks.contains(b) && #[trigger] block_cell(b, q);
        assert(-32 <= b.0 <= 32 && 0 <= b.1 <= 32);
        if !base_blocks(nb).contains(b) {
            assert(b.1 >= 1);
        }
    }
    assert forall|q: Point| 0 <= q.0 < 2 * nb && 0 <= q.1 <= 1 implies #[trigger] cells_of(blocks).contains(q) by {
        let b: Point = ((q.0 / 2) as i32, 0);
        assert(base_blocks(nb).contains(b));
        assert(block_cell(b, q));
    }
}

proof fn lemma_filled_shape(cells: Set<Point>, p: Set<Point>, base_w: int)
    requires
        holes_filled(cells, p),
        within(cells, 66),
        2 <= base_w,
        forall|q: Point| #[trigger] cells.contains(q) ==> q.1 >= 0 && (q.1 <= 1 ==> 0 <= q.0 < base_w),
        forall|q: Point| 0 <= q.0 < base_w && 0 <= q.1 <= 1 ==> #[trigger] cells.contains(q),
    ensures
        infield_shape(p, base_w),
        within(p, 67),
{
    reveal(holes_filled);
    let o: Point = (0, 0);
    assert(cells.contains(o));
    let d = choose|d: Corridor| #[trigger] cells_corridor(&d, cells, 1) && p == Set::new(|q: Point| d.has(q) || pocket(&d, Set::empty(), q));
    let (mx, bx, my, by) = choose|mx: int, bx: int, my: int, by: int|
        #![trigger is_min_x(cells, mx), is_max_x(cells, bx), is_min_y(cells, my), is_max_y(cells, by)]
        is_min_x(cells, mx) && is_max_x(cells, bx) && is_min_y(cells, my) && is_max_y(cells, by)
            && d.ox() == mx - 1 && d.oy() == my - 1 && d.ox() + d.w() == bx + 1 + 1 && d.oy() + d.h() == by + 1 + 1;
    assert(my == 0) by {
        assert(my <= o.1);
        let c = choose|c: Point| cells.contains(c) && c.1 == my;
    }
    assert(-66 <= mx && bx <= 66 && by <= 66) by {
        let c0 = choose|c: Point| cells.contains(c) && c.0 == mx;
        let c1 = choose|c: Point| cells.contains(c) && c.0 == bx;
        let c3 = choose|c: Point| cells.contains(c) && c.1 == by;
    }
    assert forall|q: Point| #[trigger] p.contains(q) implies q.1 >= 0 && (q.1 <= 1 ==> 0 <= q.0 < base_w) && -67 <= q.0 <= 67 && -67 <= q.1 <= 67 by {
        if !d.has(q) {
            assert(pocket(&d, Set::empty(), q));
            assert(d.in_box(q));
            if q.1 < 0 {
                assert(d.on_border(q));
                crate::flood::lemma_linked_refl(&d, false, q);
            } else if q.1 <= 1 && !(0 <= q.0 < base_w) {
                let e: Point = (q.0, -1i32);
                let s = if q.1 == 0 { seq![q, e] } else { seq![q, (q.0, 0i32), e] };
                assert(!cells.contains(e));
                assert(!cells.contains((q.0, 0i32)));
                assert(crate::flood::is_path(&d, false, s));
                assert(linked(&d, false, q, e));
                assert(d.on_border(e));
            }
        }
    }
    assert forall|q: Point| 0 <= q.0 < base_w && 0 <= q.1 <= 1 implies #[trigger] p.contains(q) by {
        assert(cells.contains(q));
        assert(d.has(q));
    }
}

/// Builds the infield polyomino `P`: a base strip of `base_w / 2` blocks at
/// `j = 0`, grown by drawn frontier blocks (`j ≥ 1`) towards
/// `TARGET_BLOCKS`, expanded to cells, with every hole filled. Returns
/// `(P, l_eff, base_w)`.
pub fn build_p(l_min: i32, rng: &mut Xoshiro256PlusPlus) -> (r: (BTreeSet<Point>, i32, i32))
    ensures
        (r.0@, *final(rng)) == infield_draws(l_min as int, *old(rng)),
        r.1 == l_eff_of(l_min as int),
        r.2 == base_width_of(r.1 as int),
        infield_shape(r.0@, r.2 as int),
        within(r.0@, 67),
        exists|blocks: Set<Point>| #[trigger] grown_from_base(blocks, r.2 / 2) && holes_filled(cells_of(blocks), r.0@),
        forall|d: Corridor| #[trigger] cells_corridor(&d, r.0@, 1) ==> component_firsts(&d, false, true) =~= Set::<Point>::empty(),
{
    let l_eff = clamp_l_min(l_min);
    let base_w = base_width(l_eff);
    let nb = base_w / 2;
    let mut blocks: BTreeSet<Point> = BTreeSet::new();
    let mut i: i32 = 0;
    while i < nb
        invariant
            0 <= i <= nb <= 32,
            blocks@ == Set::new(|c: Point| c.1 == 0 && 0 <= c.0 < i),
            blocks@.finite(),
            blocks@.len() == i,
        decreases nb - i,
    {
        let ghost pre = blocks@;
        set_add(&mut blocks, (i, 0));
        proof {
            assert(!pre.contains((i, 0i32)));
            assert(blocks@ =~= Set::new(|c: Point| c.1 == 0 && 0 <= c.0 < i + 1));
        }
        i = i + 1;
    }
    proof {
        assert(blocks@ =~= base_blocks(nb as int));
        assert(nb as int == base_width_of(l_eff_of(l_min as int)) / 2);
    }
    grow_blocks(&mut blocks, TARGET_BLOCKS, rng);
    let cells = cells_of_blocks(&blocks);
    proof {
        assert(grown_from_base(blocks@, nb as int)) by {
            assert forall|c: Point| #[trigger] blocks@.contains(c) implies -32 <= c.0 <= 32 && 0 <= c.1 <= 32 by {}
        }
        lemma_cells_shape(blocks@, nb as int);
        assert(2 * nb == base_w);
    }
    let p = fill_holes(&cells);
    proof {
        lemma_filled_shape(cells@, p@, base_w as int);
        lemma_filled_has_no_holes_anywhere(cells@, p@);
        assert(base_w / 2 == nb);
        assert(grown_from_base(blocks@, base_w / 2) && holes_filled(cells_of(blocks@), p@));
    }
    (p, l_eff, base_w)
}

/// The infield an attempt draws from generator state `g`: the base strip
/// grown toward [`TARGET_BLOCKS`] blocks by [`grow_draws`], expanded to
/// cells, holes filled; and the state after.
pub open spec fn infield_draws(l_min: int, g: Xoshiro256PlusPlus) -> (Set<Point>, Xoshiro256PlusPlus) {
    let base = base_blocks(base_width_of(l_eff_of(l_min)) / 2);
    let (blocks, g1) = grow_draws(base, g, TARGET_BLOCKS as int, growth_fuel(base, TARGET_BLOCKS as int));
    (filled_of(cells_of(blocks)), g1)
}

/// `q` is within one Chebyshev step of `c` (coordinates saturating).
pub open spec fn moore_near(c: Point, q: Point) -> bool {
    (q.0 == sat(c.0 - 1) || q.0 == c.0 || q.0 == sat(c.0 + 1)) && (q.1 == sat(c.1 - 1) || q.1 == c.1
        || q.1 == sat(c.1 + 1))
}

/// The Moore (3×3) dilation of `p`.
pub open spec fn dilation(p: Set<Point>) -> Set<Point> {
    Set::new(|q: Point| exists|c: Point| p.contains(c) && #[trigger] moore_near(c, q))
}

/// The annulus around `p`: its Moore dilation minus `p` itself.
pub open spec fn ring_around(p: Set<Point>) -> Set<Point> {
    dilation(p).difference(p)
}

fn add_moore_row(r: &mut BTreeSet<Point>, c: Point, y: i32)
    ensures
        forall|q: Point| #[trigger] final(r)@.contains(q) == (old(r)@.contains(q) || (q.1 == y && (q.0
            == sat(c.0 - 1) || q.0 == c.0 || q.0 == sat(c.0 + 1)))),
{
    set_add(r, (sat_sub(c.0, 1), y));
    set_add(r, (c.0, y));
    set_add(r, (sat_add(c.0, 1), y));
}

/// The Moore (3×3, Chebyshev-1) dilation of `p` by one cell.
pub fn dilate_moore(p: &BTreeSet<Point>) -> (r: BTreeSet<Point>)
    ensures
        r@ == dilation(p@),
        p@.finite(),
{
    let v = set_to_vec(p);
    proof {
        vstd::seq_lib::seq_to_set_is_finite(v@);
    }
    let mut r: BTreeSet<Point> = BTreeSet::new();
    let mut i: usize = 0;
    while i < v.len()
        invariant
            i <= v@.len(),
            v@.to_set() == p@,
            r@ == Set::new(|q: Point| exists|k: int| 0 <= k < i && #[trigger] moore_near(v@[k], q)),
        decreases v@.len() - i,
    {
        let c = v[i];
        let ghost r0 = r@;
        add_moore_row(&mut r, c, sat_sub(c.1, 1));
        add_moore_row(&mut r, c, c.1);
        add_moore_row(&mut r, c, sat_add(c.1, 1));
        proof {
            assert(v@[i as int] == c);
            assert forall|q: Point| #[trigger] r@.contains(q) == (exists|k: int| 0 <= k < i + 1 && #[trigger] moore_near(v@[k], q)) by {
                if r0.contains(q) {
                    let k = choose|k: int| 0 <= k < i && #[trigger] moore_near(v@[k], q);
                    assert(moore_near(v@[k], q));
                } else if moore_near(c, q) {
                    assert(moore_near(v@[i as int], q));
                }
                if exists|k: int| 0 <= k < i + 1 && #[trigger] moore_near(v@[k], q) {
                    let k = choose|k: int| 0 <= k < i + 1 && #[trigger] moore_near(v@[k], q);
                    if k < i {
                        assert(r0.contains(q));
                    }
                }
            }
            assert(r@ =~= Set::new(|q: Point| exists|k: int| 0 <= k < i + 1 && #[trigger] moore_near(v@[k], q)));
        }
        i = i + 1;
    }
    proof {
        assert forall|q: Point| #[trigger] r@.contains(q) == dilation(p@).contains(q) by {
            if r@.contains(q) {
                let k = choose|k: int| 0 <= k < v@.len() && #[trigger] moore_near(v@[k], q);
                assert(v@.to_set().contains(v@[k]));
            }
            if dilation(p@).contains(q) {
                let c = choose|c: Point| p@.contains(c) && #[trigger] moore_near(c, q);
                assert(v@.to_set().contains(c));
                let k = choose|k: int| 0 <= k < v@.len() && v@[k] == c;
                assert(moore_near(v@[k], q));
            }
        }
        assert(r@ =~= dilation(p@));
    }
    r
}

/// The annulus enclosing `p`: `dilate_moore(p) \ p`.
pub fn ring_from_p(p: &BTreeSet<Point>) -> (r: BTreeSet<Point>)
    ensures
        r@ == ring_around(p@),
        p@.finite(),
{
    let dil = dilate_moore(p);
    let v = set_to_vec(&dil);
    let mut r: BTreeSet<Point> = BTreeSet::new();
    let mut i: usize = 0;
    while i < v.len()
        invariant
            i <= v@.len(),
            v@.to_set() == dil@,
            r@ == Set::new(|q: Point| !p@.contains(q) && exists|k: int| 0 <= k < i && v@[k] == q),
        decreases v@.len() - i,
    {
        let q = v[i];
        if !set_has(p, q) {
            set_add(&mut r, q);
        }
        proof {
            assert(v@[i as int] == q);
            assert(r@ =~= Set::new(|x: Point| !p@.contains(x) && exists|k: int| 0 <= k < i + 1 && v@[k] == x));
        }
        i = i + 1;
    }
    proof {
        assert forall|q: Point| #[trigger] r@.contains(q) == ring_around(p@).contains(q) by {
            if dil@.contains(q) {
                assert(v@.to_set().contains(q));
            }
            if r@.contains(q) {
                let k = choose|k: int| 0 <= k < v@.len() && v@[k] == q;
                assert(v@.to_set().contains(v@[k]));
            }
        }
        assert(r@ =~= ring_around(p@));
    }
    r
}

/// `v` is `ring`'s extremal coordinate on `side`: its greatest `x` (east),
/// least `x` (west), greatest `y` (north) or least `y` (south).
pub open spec fn extremal(ring: Set<Point>, side: Side, v: int) -> bool {
    match side {
        Side::East => is_max_x(ring, v),
        Side::West => is_min_x(ring, v),
        Side::North => is_max_y(ring, v),
        Side::South => is_min_y(ring, v),
    }
}

/// `p`'s coordinate across `side` equals `v`.
pub open spec fn on_extremal(side: Side, v: int, p: Point) -> bool {
    match side {
        Side::East | Side::West => p.0 == v,
        Side::North | Side::South => p.1 == v,
    }
}

/// `p` moved `layer` steps outward across `side` (coordinates saturating).
pub open spec fn shifted(p: Point, side: Side, layer: int) -> Point {
    step_point(p, side_delta(side).0 * layer, side_delta(side).1 * layer)
}

/// `ring` widened outward on `side` by `amount` layers, each a copy of the
/// ring's extremal cells on that side.
pub open spec fn widen_side(ring: Set<Point>, side: Side, amount: int) -> Set<Point> {
    if amount == 0 || ring.is_empty() {
        ring
    } else {
        let v = choose|v: int| extremal(ring, side, v);
        ring.union(Set::new(|q: Point| exists|p: Point, l: int| #![trigger shifted(p, side, l)] ring.contains(p) && on_extremal(side, v, p) && 1 <= l <= amount && q == shifted(p, side, l)))
    }
}

/// `ring` widened on each side in turn (east, west, north, south) by the
/// four `amounts`.
#[verifier::opaque]
pub open spec fn widened(ring: Set<Point>, amounts: Seq<u32>) -> Set<Point> {
    widen_side(widen_side(widen_side(widen_side(ring, Side::East, amounts[0] as int), Side::West, amounts[1] as int), Side::North, amounts[2] as int), Side::South, amounts[3] as int)
}

pub proof fn lemma_extremal_unique(ring: Set<Point>, side: Side, a: int, b: int)
    requires
        extremal(ring, side, a),
        extremal(ring, side, b),
    ensures
        a == b,
{
    match side {
        Side::East => {
            let p = choose|p: Point| ring.contains(p) && p.0 == a;
            let q = choose|p: Point| ring.contains(p) && p.0 == b;
        },
        Side::West => {
            let p = choose|p: Point| ring.contains(p) && p.0 == a;
            let q = choose|p: Point| ring.contains(p) && p.0 == b;
        },
        Side::North => {
            let p = choose|p: Point| ring.contains(p) && p.1 == a;
            let q = choose|p: Point| ring.contains(p) && p.1 == b;
        },
        Side::South => {
            let p = choose|p: Point| ring.contains(p) && p.1 == a;
            let q = choose|p: Point| ring.contains(p) && p.1 == b;
        },
    }
}

fn add_layer(r: &mut BTreeSet<Point>, ext: &Vec<Point>, side: Side, layer: i32)
    requires
        1 <= layer <= 3,
    ensures
        final(r)@ == old(r)@.union(Set::new(|q: Point| exists|k: int| 0 <= k < ext@.len() && q == shifted(#[trigger] ext@[k], side, layer as int))),
{
    let (dx, dy) = side.delta();
    let mut j: usize = 0;
    let ghost r0 = r@;
    while j < ext.len()
        invariant
            1 <= layer <= 3,
            dx == side_delta(side).0 && dy == side_delta(side).1,
            j <= ext@.len(),
            r@ == r0.union(Set::new(|q: Point| exists|k: int| 0 <= k < j && q == shifted(#[trigger] ext@[k], side, layer as int))),
        decreases ext@.len() - j,
    {
        let pt = ext[j];
        proof {
            assert(-1 <= dx <= 1 && -1 <= dy <= 1);
            assert(-3 <= dx * layer <= 3) by (nonlinear_arith)
                requires -1 <= dx <= 1, 1 <= layer <= 3;
            assert(-3 <= dy * layer <= 3) by (nonlinear_arith)
                requires -1 <= dy <= 1, 1 <= layer <= 3;
        }
        let q = (sat_add(pt.0, sat_mul(dx, layer)), sat_add(pt.1, sat_mul(dy, layer)));
        set_add(r, q);
        proof {
            assert(q == shifted(ext@[j as int], side, layer as int));
            assert(r@ =~= r0.union(Set::new(|x: Point| exists|k: int| 0 <= k < j + 1 && x == shifted(#[trigger] ext@[k], side, layer as int)))) by {
                assert forall|x: Point| (exists|k: int| 0 <= k < j + 1 && x == shifted(#[trigger] ext@[k], side, layer as int)) implies r@.contains(x) by {
                    let k = choose|k: int| 0 <= k < j + 1 && x == shifted(#[trigger] ext@[k], side, layer as int);
                    if k < j {
                        assert(exists|k2: int| 0 <= k2 < j && x == shifted(#[trigger] ext@[k2], side, layer as int));
                    }
                }
            }
        }
        j = j + 1;
    }
}

/// Widens `ring` outward on `side` by `amount` layers: each layer copies
/// the ring's extremal cells on that side one step further out.
pub fn widen_one_side(ring: &mut BTreeSet<Point>, side: Side, amount: u32)
    requires
        amount <= WIDEN_MAX,
    ensures
        final(ring)@ == widen_side(old(ring)@, side, amount as int),
{
    if amount == 0 {
        return;
    }
    let b = bounds(ring);
    match b {
        None => {
            return;
        },
        Some((min_x, max_x, min_y, max_y)) => {
            let v = match side {
                Side::East => max_x,
                Side::West => min_x,
                Side::North => max_y,
                Side::South => min_y,
            };
            let ghost r0 = ring@;
            proof {
                assert(extremal(r0, side, v as int));
                let c = choose|v2: int| extremal(r0, side, v2);
                lemma_extremal_unique(r0, side, v as int, c);
            }
            let pts = set_to_vec(ring);
            let mut ext: Vec<Point> = Vec::new();
            let mut i: usize = 0;
            while i < pts.len()
                invariant
                    i <= pts@.len(),
                    pts@.to_set() == r0,
                    forall|q: Point| ext@.contains(q) <==> (on_extremal(side, v as int, q) && exists|k: int| 0 <= k < i && pts@[k] == q),
                decreases pts@.len() - i,
            {
                let q = pts[i];
                let keep = match side {
                    Side::East | Side::West => q.0 == v,
                    Side::North | Side::South => q.1 == v,
                };
                let ghost e0 = ext@;
                if keep {
                    ext.push(q);
                }
                proof {
                    assert(pts@[i as int] == q);
                    assert forall|x: Point| ext@.contains(x) <==> (on_extremal(side, v as int, x) && exists|k: int| 0 <= k < i + 1 && pts@[k] == x) by {
                        if keep && x == q {
                            assert(ext@[ext@.len() - 1] == x);
                        }
                        if ext@.contains(x) {
                            let k = choose|k: int| 0 <= k < ext@.len() && ext@[k] == x;
                            if k < e0.len() {
                                assert(e0[k] == x);
                                assert(e0.contains(x));
                            }
                        }
                        if e0.contains(x) {
                            let k = choose|k: int| 0 <= k < e0.len() && e0[k] == x;
                            assert(ext@[k] == x);
                        }
                        if on_extremal(side, v as int, x) && exists|k: int| 0 <= k < i + 1 && pts@[k] == x {
                            let k = choose|k: int| 0 <= k < i + 1 && pts@[k] == x;
                            if k < i {
                                assert(e0.contains(x));
                                let k2 = choose|k2: int| 0 <= k2 < e0.len() && e0[k2] == x;
                                assert(ext@[k2] == x);
                            }
                        }
                    }
                }
                i = i + 1;
            }
            let mut layer: u32 = 1;
            while layer <= amount
                invariant
                    1 <= layer <= amount + 1,
                    amount <= WIDEN_MAX,
                    ring@ == r0.union(Set::new(|q: Point| exists|k: int, l: int| 0 <= k < ext@.len() && 1 <= l < layer && q == #[trigger] shifted(#[trigger] ext@[k], side, l))),
                decreases amount + 1 - layer,
            {
                let ghost rb = ring@;
                add_layer(ring, &ext, side, layer as i32);
                proof {
                    assert(ring@ =~= r0.union(Set::new(|q: Point| exists|k: int, l: int| 0 <= k < ext@.len() && 1 <= l < layer + 1 && q == #[trigger] shifted(#[trigger] ext@[k], side, l)))) by {
                        assert forall|q: Point| #[trigger] ring@.contains(q) == r0.union(Set::new(|q: Point| exists|k: int, l: int| 0 <= k < ext@.len() && 1 <= l < layer + 1 && q == #[trigger] shifted(#[trigger] ext@[k], side, l))).contains(q) by {
                            if rb.contains(q) && !r0.contains(q) {
                                let (k, l) = choose|k: int, l: int| 0 <= k < ext@.len() && 1 <= l < layer && q == #[trigger] shifted(#[trigger] ext@[k], side, l);
                                assert(q == shifted(ext@[k], side, l));
                            }
                            if !rb.contains(q) && ring@.contains(q) {
                                let k = choose|k: int| 0 <= k < ext@.len() && q == shifted(#[trigger] ext@[k], side, layer as int);
                                assert(q == shifted(ext@[k], side, layer as int));
                            }
                            if (exists|k: int, l: int| 0 <= k < ext@.len() && 1 <= l < layer + 1 && q == #[trigger] shifted(#[trigger] ext@[k], side, l)) {
                                let (k, l) = choose|k: int, l: int| 0 <= k < ext@.len() && 1 <= l < layer + 1 && q == #[trigger] shifted(#[trigger] ext@[k], side, l);
                                if l < layer {
                                    assert(q == shifted(ext@[k], side, l));
                                } else {
                                    assert(q == shifted(ext@[k], side, layer as int));
                                }
                            }
                        }
                    }
                }
                layer = layer + 1;
            }
            proof {
                assert(!r0.is_empty()) by {
                    let c = choose|p: Point| r0.contains(p) && p.0 == min_x;
                }
                let tgt = widen_side(r0, side, amount as int);
                assert forall|q: Point| #[trigger] ring@.contains(q) == tgt.contains(q) by {
                    if ring@.contains(q) && !r0.contains(q) {
                        let (k, l) = choose|k: int, l: int| 0 <= k < ext@.len() && 1 <= l < layer && q == #[trigger] shifted(#[trigger] ext@[k], side, l);
                        let p = ext@[k];
                        assert(ext@.contains(p));
                        let k2 = choose|k2: int| 0 <= k2 < pts@.len() && pts@[k2] == p;
                        assert(pts@.to_set().contains(pts@[k2]));
                        assert(q == shifted(p, side, l));
                    }
                    if tgt.contains(q) && !r0.contains(q) {
                        let (p, l) = choose|p: Point, l: int| #![trigger shifted(p, side, l)] r0.contains(p) && on_extremal(side, v as int, p) && 1 <= l <= amount && q == shifted(p, side, l);
                        assert(pts@.to_set().contains(p));
                        let k2 = choose|k2: int| 0 <= k2 < pts@.len() && pts@[k2] == p;
                        assert(ext@.contains(p));
                        let k = choose|k: int| 0 <= k < ext@.len() && ext@[k] == p;
                        assert(q == shifted(ext@[k], side, l));
                    }
                }
                assert(ring@ =~= tgt);
            }
        },
    }
}

/// Widens `ring` by the four `amounts`, one per side in the fixed order
/// east, west, north, south.
pub fn widen_by(ring: &BTreeSet<Point>, amounts: [u32; 4]) -> (r: BTreeSet<Point>)
    requires
        forall|i: int| 0 <= i < 4 ==> amounts@[i] <= WIDEN_MAX,
    ensures
        r@ == widened(ring@, amounts@),
{
    proof {
        reveal(widened);
    }
    let mut r = ring.clone();
    widen_one_side(&mut r, SIDES[0], amounts[0]);
    widen_one_side(&mut r, SIDES[1], amounts[1]);
    widen_one_side(&mut r, SIDES[2], amounts[2]);
    widen_one_side(&mut r, SIDES[3], amounts[3]);
    r
}

/// The four widening amounts drawn in turn from generator state `g`, each
/// in `0..=WIDEN_MAX` (East, West, North, South), and the state after them.
pub open spec fn widen_draws(g: Xoshiro256PlusPlus) -> (Seq<u32>, Xoshiro256PlusPlus) {
    let (a0, g1) = upto_draw(g, WIDEN_MAX);
    let (a1, g2) = upto_draw(g1, WIDEN_MAX);
    let (a2, g3) = upto_draw(g2, WIDEN_MAX);
    let (a3, g4) = upto_draw(g3, WIDEN_MAX);
    (seq![a0, a1, a2, a3], g4)
}

/// Widens `ring` outward on each side by a `0..=WIDEN_MAX` amount drawn per
/// side, in the fixed side order. Widening only copies extremal cells
/// outward, never toward the enclosed hole.
pub fn widen(ring: &BTreeSet<Point>, rng: &mut Xoshiro256PlusPlus) -> (r: BTreeSet<Point>)
    ensures
        r@ == widened(ring@, widen_draws(*old(rng)).0),
        *final(rng) == widen_draws(*old(rng)).1,
        exists|a: Seq<u32>| #![trigger widened(ring@, a)] a.len() == 4 && (forall|i: int| 0 <= i < 4 ==> a[i] <= WIDEN_MAX) && r@ == widened(ring@, a),
{
    let a0 = random_upto(rng, WIDEN_MAX);
    let a1 = random_upto(rng, WIDEN_MAX);
    let a2 = random_upto(rng, WIDEN_MAX);
    let a3 = random_upto(rng, WIDEN_MAX);
    let amounts = [a0, a1, a2, a3];
    let r = widen_by(ring, amounts);
    proof {
        assert(amounts@.len() == 4);
        assert(amounts@ =~= widen_draws(*old(rng)).0);
    }
    r
}

/// The cell at coordinate `v` of the wall group `(horiz, fixed)`: row
/// `fixed` of a horizontal group, column `fixed` of a vertical one.
pub open spec fn group_cell(horiz: bool, fixed: int, v: int) -> Point {
    if horiz {
        (v as i32, fixed as i32)
    } else {
        (fixed as i32, v as i32)
    }
}

/// The group's cell at `v` is drivable and has a boundary wall of the
/// group's kind: a north or south wall for a horizontal group, an east or
/// west wall for a vertical one.
pub open spec fn group_wall(d: &Corridor, horiz: bool, fixed: int, v: int) -> bool {
    let c = group_cell(horiz, fixed, v);
    d.has(c) && if horiz {
        !d.has((c.0, (c.1 + 1) as i32)) || !d.has((c.0, (c.1 - 1) as i32))
    } else {
        !d.has(((c.0 + 1) as i32, c.1)) || !d.has(((c.0 - 1) as i32, c.1))
    }
}

/// The maximal runs of consecutive walled coordinates of group
/// `(horiz, fixed)` from `v` up to `hi`, given a run of length `cur` open
/// just before `v`.
pub open spec fn runs_from(d: &Corridor, horiz: bool, fixed: int, v: int, hi: int, cur: int) -> Seq<int>
    decreases hi - v,
{
    if v >= hi {
        if cur > 0 { seq![cur] } else { Seq::empty() }
    } else if group_wall(d, horiz, fixed, v) {
        runs_from(d, horiz, fixed, v + 1, hi, cur + 1)
    } else if cur > 0 {
        seq![cur] + runs_from(d, horiz, fixed, v + 1, hi, 0)
    } else {
        runs_from(d, horiz, fixed, v + 1, hi, 0)
    }
}

/// The box's coordinate range along a group: `x` for horizontal groups,
/// `y` for vertical ones.
pub open spec fn group_range(d: &Corridor, horiz: bool) -> (int, int) {
    if horiz { (d.ox(), d.ox() + d.w()) } else { (d.oy(), d.oy() + d.h()) }
}

/// The maximal wall runs of one group, in ascending order.
pub open spec fn line_runs(d: &Corridor, horiz: bool, fixed: int) -> Seq<int> {
    runs_from(d, horiz, fixed, group_range(d, horiz).0, group_range(d, horiz).1, 0)
}

/// The runs of the groups `fixed ∈ [a, b)` of one kind, group by group.
pub open spec fn groups_runs(d: &Corridor, horiz: bool, a: int, b: int) -> Seq<int>
    decreases b - a,
{
    if b <= a {
        Seq::empty()
    } else {
        groups_runs(d, horiz, a, b - 1) + line_runs(d, horiz, b - 1)
    }
}

/// Every maximal straight run of `d`'s boundary walls: the vertical-wall
/// groups by ascending `x`, then the horizontal-wall groups by ascending
/// `y`, each group's runs in ascending order.
pub open spec fn wall_runs(d: &Corridor) -> Seq<int> {
    groups_runs(d, false, d.ox(), d.ox() + d.w()) + groups_runs(d, true, d.oy(), d.oy() + d.h())
}

/// The run lengths of `s`, as integers.
pub open spec fn as_ints(s: Seq<usize>) -> Seq<int> {
    s.map_values(|x: usize| x as int)
}

proof fn lemma_as_ints_push(s: Seq<usize>, x: usize)
    ensures
        as_ints(s.push(x)) == as_ints(s).push(x as int),
{
    assert(as_ints(s.push(x)) =~= as_ints(s).push(x as int));
}

/// `fixed` is a line of the box across group `horiz`'s lines.
spec fn across_ok(d: &Corridor, horiz: bool, fixed: int) -> bool {
    if horiz { d.oy() <= fixed < d.oy() + d.h() } else { d.ox() <= fixed < d.ox() + d.w() }
}

fn group_wall_at(d: &Corridor, horiz: bool, fixed: i32, v: i32) -> (r: bool)
    requires
        d.wf(),
        box_small(d),
        across_ok(d, horiz, fixed as int),
    ensures
        r == group_wall(d, horiz, fixed as int, v as int),
{
    if horiz {
        d.contains((v, fixed)) && (!d.contains((v, fixed + 1)) || !d.contains((v, fixed - 1)))
    } else {
        d.contains((fixed, v)) && (!d.contains((fixed + 1, v)) || !d.contains((fixed - 1, v)))
    }
}

/// Appends the maximal wall runs of group `(horiz, fixed)` to `out`.
fn push_line_runs(d: &Corridor, horiz: bool, fixed: i32, out: &mut Vec<usize>)
    requires
        d.wf(),
        box_small(d),
        across_ok(d, horiz, fixed as int),
    ensures
        as_ints(final(out)@) == as_ints(old(out)@) + line_runs(d, horiz, fixed as int),
{
    let origin = d.origin();
    let lo: i32 = if horiz { origin.0 } else { origin.1 };
    let n: usize = if horiz { d.width() } else { d.height() };
    let ghost hi = group_range(d, horiz).1;
    let mut cur: usize = 0;
    let mut k: usize = 0;
    let ghost o0 = as_ints(out@);
    while k < n
        invariant
            d.wf(),
            box_small(d),
            across_ok(d, horiz, fixed as int),
            lo == group_range(d, horiz).0,
            lo + n == hi,
            hi == group_range(d, horiz).1,
            k <= n,
            cur <= k,
            as_ints(out@) + runs_from(d, horiz, fixed as int, lo + k, hi, cur as int) == o0 + line_runs(d, horiz, fixed as int),
        decreases n - k,
    {
        let v: i32 = (lo as i64 + k as i64) as i32;
        let ghost before = as_ints(out@);
        if group_wall_at(d, horiz, fixed, v) {
            cur = cur + 1;
        } else {
            if cur > 0 {
                proof {
                    lemma_as_ints_push(out@, cur);
                    assert(seq![cur as int] + runs_from(d, horiz, fixed as int, lo + k + 1, hi, 0) == runs_from(d, horiz, fixed as int, lo + k, hi, cur as int));
                    assert(before.push(cur as int) + runs_from(d, horiz, fixed as int, lo + k + 1, hi, 0) =~= before + (seq![cur as int] + runs_from(d, horiz, fixed as int, lo + k + 1, hi, 0)));
                }
                out.push(cur);
            }
            cur = 0;
        }
        k = k + 1;
    }
    if cur > 0 {
        proof {
            lemma_as_ints_push(out@, cur);
            assert(runs_from(d, horiz, fixed as int, lo + k, hi, cur as int) == seq![cur as int]);
        }
        out.push(cur);
    } else {
        proof {
            assert(runs_from(d, horiz, fixed as int, lo + k, hi, cur as int) =~= Seq::<int>::empty());
            assert(as_ints(out@) + Seq::<int>::empty() =~= as_ints(out@));
        }
    }
}

/// The maximal straight border-run lengths of `d`'s whole boundary (inner
/// and outer), grouped by wall orientation and fixed coordinate into runs
/// of consecutive cells along the varying axis.
pub fn max_straight_runs(d: &Corridor) -> (runs: Vec<usize>)
    requires
        d.wf(),
        box_small(d),
    ensures
        as_ints(runs@) == wall_runs(d),
{
    let origin = d.origin();
    let w = d.width();
    let h = d.height();
    let mut out: Vec<usize> = Vec::new();
    let mut x: usize = 0;
    proof {
        assert(as_ints(out@) =~= groups_runs(d, false, d.ox(), d.ox() + 0));
    }
    while x < w
        invariant
            d.wf(),
            box_small(d),
            origin.0 == d.ox() && origin.1 == d.oy() && w == d.w() && h == d.h(),
            x <= w,
            as_ints(out@) == groups_runs(d, false, d.ox(), d.ox() + x),
        decreases w - x,
    {
        let fixed: i32 = (origin.0 as i64 + x as i64) as i32;
        push_line_runs(d, false, fixed, &mut out);
        x = x + 1;
    }
    let ghost first = as_ints(out@);
    let mut y: usize = 0;
    proof {
        assert(as_ints(out@) =~= first + groups_runs(d, true, d.oy(), d.oy() + 0));
    }
    while y < h
        invariant
            d.wf(),
            box_small(d),
            origin.0 == d.ox() && origin.1 == d.oy() && w == d.w() && h == d.h(),
            y <= h,
            as_ints(out@) == first + groups_runs(d, true, d.oy(), d.oy() + y),
        decreases h - y,
    {
        let fixed: i32 = (origin.1 as i64 + y as i64) as i32;
        push_line_runs(d, true, fixed, &mut out);
        proof {
            assert(first + groups_runs(d, true, d.oy(), d.oy() + y) + line_runs(d, true, fixed as int) =~= first + groups_runs(d, true, d.oy(), d.oy() + y + 1));
        }
        y = y + 1;
    }
    out
}

/// The fallback rectangle's width: `max(l_eff + 2, MIN_RECT_W)`.
pub open spec fn rect_width(l_eff: int) -> int {
    if l_eff + 2 > MIN_RECT_W { l_eff + 2 } else { MIN_RECT_W as int }
}

/// The border cells of the rectangle `[0, w) × [0, h)`.
pub open spec fn rect_ring(w: int, h: int) -> Set<Point> {
    Set::new(|p: Point| 0 <= p.0 < w && 0 <= p.1 < h && (p.0 == 0 || p.1 == 0 || p.0 + 1 == w || p.1 + 1 == h))
}

/// The interior cells of the rectangle `[0, w) × [0, h)`.
pub open spec fn rect_hole(w: int, h: int) -> Set<Point> {
    Set::new(|p: Point| 0 < p.0 < w - 1 && 0 < p.1 < h - 1)
}

/// The guaranteed fallback: the rectangular annulus `[0, W) × [0, H)` minus
/// its interior, with `W = max(l_eff + 2, MIN_RECT_W)` and `H = MIN_RECT_H`.
/// Returns `(ring, hole)`.
pub fn rectangular_fallback(l_eff: i32) -> (r: (BTreeSet<Point>, BTreeSet<Point>))
    requires
        MIN_COARSE_STRAIGHT <= l_eff <= MAX_COARSE_STRAIGHT,
    ensures
        r.0@ == rect_ring(rect_width(l_eff as int), MIN_RECT_H as int),
        r.1@ == rect_hole(rect_width(l_eff as int), MIN_RECT_H as int),
{
    let w = if l_eff + 2 > MIN_RECT_W { l_eff + 2 } else { MIN_RECT_W };
    let h = MIN_RECT_H;
    let mut ring: BTreeSet<Point> = BTreeSet::new();
    let mut hole: BTreeSet<Point> = BTreeSet::new();
    let mut y: i32 = 0;
    while y < h
        invariant
            0 <= y <= h,
            h == MIN_RECT_H,
            w == rect_width(l_eff as int),
            4 <= w <= 66,
            ring@ == Set::new(|p: Point| rect_ring(w as int, h as int).contains(p) && p.1 < y),
            hole@ == Set::new(|p: Point| rect_hole(w as int, h as int).contains(p) && p.1 < y),
        decreases h - y,
    {
        let mut x: i32 = 0;
        while x < w
            invariant
                0 <= y < h,
                0 <= x <= w,
                h == MIN_RECT_H,
                w == rect_width(l_eff as int),
                4 <= w <= 66,
                ring@ == Set::new(|p: Point| rect_ring(w as int, h as int).contains(p) && (p.1 < y || (p.1 == y && p.0 < x))),
                hole@ == Set::new(|p: Point| rect_hole(w as int, h as int).contains(p) && (p.1 < y || (p.1 == y && p.0 < x))),
            decreases w - x,
        {
            let pt = (x, y);
            if x == 0 || y == 0 || x + 1 == w || y + 1 == h {
                set_add(&mut ring, pt);
            } else {
                set_add(&mut hole, pt);
            }
            proof {
                assert(ring@ =~= Set::new(|p: Point| rect_ring(w as int, h as int).contains(p) && (p.1 < y || (p.1 == y && p.0 < x + 1))));
                assert(hole@ =~= Set::new(|p: Point| rect_hole(w as int, h as int).contains(p) && (p.1 < y || (p.1 == y && p.0 < x + 1))));
            }
            x = x + 1;
        }
        proof {
            assert(ring@ =~= Set::new(|p: Point| rect_ring(w as int, h as int).contains(p) && p.1 < y + 1));
            assert(hole@ =~= Set::new(|p: Point| rect_hole(w as int, h as int).contains(p) && p.1 < y + 1));
        }
        y = y + 1;
    }
    proof {
        assert(ring@ =~= rect_ring(w as int, h as int));
        assert(hole@ =~= rect_hole(w as int, h as int));
    }
    (ring, hole)
}

/// The direction [`choose_dir`] draws from generator state `g` out of
/// [`RACE_DIRS`], `Cw` then `Ccw` (`Cw` should the draw come back empty),
/// and the state after it.
pub open spec fn dir_draw(g: Xoshiro256PlusPlus) -> (RaceDir, Xoshiro256PlusPlus) {
    let (o, next) = race_dir_draw(seq![RaceDir::Cw, RaceDir::Ccw], g);
    (
        match o {
            Some(dir) => dir,
            None => RaceDir::Cw,
        },
        next,
    )
}

/// The direction [`dir_draw`] gives is the one the random choice over
/// `Cw`, `Ccw` returns, whenever it returns one, and the stream after it
/// is the choice's.
pub proof fn lemma_dir_draw_is_the_choice(g: Xoshiro256PlusPlus)
    ensures
        race_dir_draw(seq![RaceDir::Cw, RaceDir::Ccw], g).0 matches Some(dir) ==> dir_draw(g).0 == dir,
        dir_draw(g).1 == race_dir_draw(seq![RaceDir::Cw, RaceDir::Ccw], g).1,
{
}

/// Draws the fixed traversal orientation from the stream.
pub fn choose_dir(rng: &mut Xoshiro256PlusPlus) -> (r: RaceDir)
    ensures
        (r, *final(rng)) == dir_draw(*old(rng)),
        race_dir_draw(seq![RaceDir::Cw, RaceDir::Ccw], *old(rng)) == (Some(r), *final(rng)),
{
    let dirs: &[RaceDir] = &RACE_DIRS;
    proof {
        assert(dirs@ =~= seq![RaceDir::Cw, RaceDir::Ccw]);
    }
    match choose_race_dir(dirs, rng) {
        Some(dir) => dir,
        None => RaceDir::Cw,
    }
}

/// The least and greatest of `runs`, or `(0, 0)` when it is empty.
fn run_extremes(runs: &Vec<usize>) -> (r: (usize, usize))
    ensures
        runs@.len() == 0 ==> r == (0usize, 0usize),
        runs@.len() > 0 ==> (forall|i: int| 0 <= i < runs@.len() ==> r.0 <= #[trigger] runs@[i] <= r.1)
            && (exists|i: int| 0 <= i < runs@.len() && runs@[i] == r.0) && (exists|i: int| 0 <= i < runs@.len() && runs@[i] == r.1),
{
    if runs.len() == 0 {
        return (0, 0);
    }
    let mut lo = runs[0];
    let mut hi = runs[0];
    let mut i: usize = 1;
    while i < runs.len()
        invariant
            1 <= i <= runs@.len(),
            forall|j: int| 0 <= j < i ==> lo <= #[trigger] runs@[j] <= hi,
            exists|j: int| 0 <= j < i && runs@[j] == lo,
            exists|j: int| 0 <= j < i && runs@[j] == hi,
        decreases runs@.len() - i,
    {
        let v = runs[i];
        if v < lo {
            lo = v;
        }
        if v > hi {
            hi = v;
        }
        proof {
            assert(runs@[i as int] == v);
        }
        i = i + 1;
    }
    (lo, hi)
}

/// The acceptance checks on a corridor: one 4-connected component
/// enclosing exactly one hole, every straight border run at least 2 long,
/// and some run at least `l_eff` long.
pub open spec fn corridor_checks(d: &Corridor, l_eff: int) -> bool {
    &&& component_firsts(d, true, false).len() == 1
    &&& component_firsts(d, false, true).len() == 1
    &&& forall|i: int| 0 <= i < wall_runs(d).len() ==> #[trigger] wall_runs(d)[i] >= 2
    &&& exists|i: int| 0 <= i < wall_runs(d).len() && #[trigger] wall_runs(d)[i] >= l_eff
}

/// The ring passes the skeleton's acceptance checks over its corridor
/// padded by one cell (see [`corridor_checks`]). Every such corridor has
/// the same box and cells, so all of them agree; [`corridor_from_cells`]
/// builds one for every ring in the domain.
#[verifier::opaque]
pub open spec fn ring_accepted(ring: Set<Point>, l_eff: int) -> bool {
    forall|d: Corridor| #[trigger] cells_corridor(&d, ring, 1) ==> corridor_checks(&d, l_eff)
}

/// Two corridors over the same cells with the same margin have the same
/// box and the same drivable cells.
pub proof fn lemma_cells_corridor_unique(d1: &Corridor, d2: &Corridor, cells: Set<Point>, margin: int)
    requires
        cells_corridor(d1, cells, margin),
        cells_corridor(d2, cells, margin),
    ensures
        d1.same_box(d2),
        forall|q: Point| #[trigger] d1.has(q) == d2.has(q),
{
    if !cells.is_empty() {
        let (mx, bx, my, by) = choose|mx: int, bx: int, my: int, by: int|
            #![trigger is_min_x(cells, mx), is_max_x(cells, bx), is_min_y(cells, my), is_max_y(cells, by)]
            is_min_x(cells, mx) && is_max_x(cells, bx) && is_min_y(cells, my) && is_max_y(cells, by)
                && d1.ox() == mx - margin && d1.oy() == my - margin && d1.ox() + d1.w() == bx + 1 + margin && d1.oy() + d1.h() == by + 1 + margin;
        let (mx1, bx1, my1, by1) = choose|mx: int, bx: int, my: int, by: int|
            #![trigger is_min_x(cells, mx), is_max_x(cells, bx), is_min_y(cells, my), is_max_y(cells, by)]
            is_min_x(cells, mx) && is_max_x(cells, bx) && is_min_y(cells, my) && is_max_y(cells, by)
                && d2.ox() == mx - margin && d2.oy() == my - margin && d2.ox() + d2.w() == bx + 1 + margin && d2.oy() + d2.h() == by + 1 + margin;
        lemma_extremal_unique(cells, Side::West, mx, mx1);
        lemma_extremal_unique(cells, Side::East, bx, bx1);
        lemma_extremal_unique(cells, Side::South, my, my1);
        lemma_extremal_unique(cells, Side::North, by, by1);
    }
}

proof fn lemma_dilation_within(p: Set<Point>, n: int)
    requires
        within(p, n),
        0 <= n <= 1000,
    ensures
        within(dilation(p), n + 1),
{
    assert forall|q: Point| #[trigger] dilation(p).contains(q) implies -(n + 1) <= q.0 <= n + 1 && -(n + 1) <= q.1 <= n + 1 by {
        let c = choose|c: Point| p.contains(c) && #[trigger] moore_near(c, q);
    }
}

proof fn lemma_widen_side_within(ring: Set<Point>, side: Side, amount: int, n: int)
    requires
        within(ring, n),
        0 <= amount <= 3,
        0 <= n <= 1000,
    ensures
        within(widen_side(ring, side, amount), n + 3),
{
    if amount != 0 && !ring.is_empty() {
        let v = choose|v: int| extremal(ring, side, v);
        assert forall|q: Point| #[trigger] widen_side(ring, side, amount).contains(q) implies -(n + 3) <= q.0 <= n + 3 && -(n + 3) <= q.1 <= n + 3 by {
            if !ring.contains(q) {
                let (p, l) = choose|p: Point, l: int| #![trigger shifted(p, side, l)] ring.contains(p) && on_extremal(side, v, p) && 1 <= l <= amount && q == shifted(p, side, l);
                let dx = side_delta(side).0;
                let dy = side_delta(side).1;
                assert(-1 <= dx <= 1 && -1 <= dy <= 1);
                assert(-3 <= dx * l <= 3) by (nonlinear_arith)
                    requires -1 <= dx <= 1, 1 <= l <= 3;
                assert(-3 <= dy * l <= 3) by (nonlinear_arith)
                    requires -1 <= dy <= 1, 1 <= l <= 3;
            }
        }
    }
}

proof fn lemma_widened_within(ring: Set<Point>, a: Seq<u32>, n: int)
    requires
        within(ring, n),
        a.len() == 4,
        forall|i: int| 0 <= i < 4 ==> a[i] <= WIDEN_MAX,
        0 <= n <= 900,
    ensures
        within(widened(ring, a), n + 12),
{
    reveal(widened);
    let r1 = widen_side(ring, Side::East, a[0] as int);
    let r2 = widen_side(r1, Side::West, a[1] as int);
    let r3 = widen_side(r2, Side::North, a[2] as int);
    lemma_widen_side_within(ring, Side::East, a[0] as int, n);
    lemma_widen_side_within(r1, Side::West, a[1] as int, n + 3);
    lemma_widen_side_within(r2, Side::North, a[2] as int, n + 6);
    lemma_widen_side_within(r3, Side::South, a[3] as int, n + 9);
}

/// Two corridors with the same box and the same drivable cells agree on
/// every component count and wall run.
pub proof fn lemma_same_cells(d1: &Corridor, d2: &Corridor)
    requires
        d1.same_box(d2),
        forall|q: Point| #[trigger] d1.has(q) == d2.has(q),
    ensures
        component_firsts(d1, true, false) == component_firsts(d2, true, false),
        component_firsts(d1, false, true) == component_firsts(d2, false, true),
        wall_runs(d1) == wall_runs(d2),
{
    assert forall|w: bool, s: Seq<Point>| #[trigger] crate::flood::is_path(d1, w, s) == crate::flood::is_path(d2, w, s) by {
        if crate::flood::is_path(d1, w, s) {
            assert forall|i: int| 0 <= i < s.len() implies crate::flood::member(d2, w, #[trigger] s[i]) by {
                assert(crate::flood::member(d1, w, s[i]));
            }
        }
        if crate::flood::is_path(d2, w, s) {
            assert forall|i: int| 0 <= i < s.len() implies crate::flood::member(d1, w, #[trigger] s[i]) by {
                assert(crate::flood::member(d2, w, s[i]));
            }
        }
    }
    assert forall|w: bool, p: Point, q: Point| #[trigger] linked(d1, w, p, q) == linked(d2, w, p, q) by {
        if linked(d1, w, p, q) {
            let s = choose|s: Seq<Point>| #[trigger] crate::flood::is_path(d1, w, s) && s[0] == p && s.last() == q;
            assert(crate::flood::is_path(d2, w, s));
        }
        if linked(d2, w, p, q) {
            let s = choose|s: Seq<Point>| #[trigger] crate::flood::is_path(d2, w, s) && s[0] == p && s.last() == q;
            assert(crate::flood::is_path(d1, w, s));
        }
    }
    assert forall|w: bool, q: Point| #[trigger] first_of_component(d1, w, q) == first_of_component(d2, w, q) && enclosed(d1, w, q) == enclosed(d2, w, q) by {
        assert(crate::flood::member(d1, w, q) == crate::flood::member(d2, w, q));
        if first_of_component(d1, w, q) {
            assert forall|r: Point| #[trigger] linked(d2, w, q, r) implies !scan_before(r, q) by {
                assert(linked(d1, w, q, r));
            }
        }
        if first_of_component(d2, w, q) {
            assert forall|r: Point| #[trigger] linked(d1, w, q, r) implies !scan_before(r, q) by {
                assert(linked(d2, w, q, r));
            }
        }
        if enclosed(d1, w, q) {
            assert forall|r: Point| #[trigger] linked(d2, w, q, r) implies !d2.on_border(r) by {
                assert(linked(d1, w, q, r));
            }
        }
        if enclosed(d2, w, q) {
            assert forall|r: Point| #[trigger] linked(d1, w, q, r) implies !d1.on_border(r) by {
                assert(linked(d2, w, q, r));
            }
        }
    }
    assert(component_firsts(d1, true, false) =~= component_firsts(d2, true, false));
    assert(component_firsts(d1, false, true) =~= component_firsts(d2, false, true));
    lemma_groups_same(d1, d2, false, d1.ox(), d1.ox() + d1.w());
    lemma_groups_same(d1, d2, true, d1.oy(), d1.oy() + d1.h());
}

proof fn lemma_runs_same(d1: &Corridor, d2: &Corridor, horiz: bool, fixed: int, v: int, hi: int, cur: int)
    requires
        d1.same_box(d2),
        forall|q: Point| #[trigger] d1.has(q) == d2.has(q),
    ensures
        runs_from(d1, horiz, fixed, v, hi, cur) == runs_from(d2, horiz, fixed, v, hi, cur),
    decreases hi - v,
{
    if v < hi {
        lemma_runs_same(d1, d2, horiz, fixed, v + 1, hi, cur + 1);
        lemma_runs_same(d1, d2, horiz, fixed, v + 1, hi, 0);
    }
}

proof fn lemma_groups_same(d1: &Corridor, d2: &Corridor, horiz: bool, a: int, b: int)
    requires
        d1.same_box(d2),
        forall|q: Point| #[trigger] d1.has(q) == d2.has(q),
    ensures
        groups_runs(d1, horiz, a, b) == groups_runs(d2, horiz, a, b),
    decreases b - a,
{
    if b > a {
        lemma_groups_same(d1, d2, horiz, a, b - 1);
        lemma_runs_same(d1, d2, horiz, b - 1, group_range(d1, horiz).0, group_range(d1, horiz).1, 0);
    }
}

/// The acceptance checks on `ring` (see [`ring_accepted`]).
pub fn check_ring(ring: &BTreeSet<Point>, l_eff: i32) -> (r: bool)
    requires
        padded_in_domain(ring@, 1),
    ensures
        r == ring_accepted(ring@, l_eff as int),
        r ==> exists|c: Corridor| #[trigger] cells_corridor(&c, ring@, 1) && corridor_checks(&c, l_eff as int),
{
    let d = corridor_from_cells(ring, 1);
    let runs = max_straight_runs(&d);
    let (min_run, max_run) = run_extremes(&runs);
    let max_run_i: i32 = if max_run <= 0x7fff_ffff { max_run as i32 } else { i32::MAX };
    let c1 = component_count(&d);
    let c2 = bounded_complement_components(&d);
    let ok = c1 == 1 && c2 == 1 && min_run >= 2 && max_run_i >= l_eff;
    proof {
        reveal(ring_accepted);
        let wr = wall_runs(&d);
        assert(as_ints(runs@) == wr);
        assert(wr.len() == runs@.len());
        assert forall|i: int| 0 <= i < wr.len() implies #[trigger] wr[i] == runs@[i] as int by {}
        if ok {
            assert forall|i: int| 0 <= i < wr.len() implies #[trigger] wr[i] >= 2 by {
                assert(min_run <= runs@[i]);
            }
            let k = choose|i: int| 0 <= i < runs@.len() && runs@[i] == max_run;
            assert(wr[k] == max_run as int);
            assert(wr[k] >= l_eff);
        }
        assert(ok == corridor_checks(&d, l_eff as int)) by {
            if !ok && corridor_checks(&d, l_eff as int) {
                assert(min_run >= 2) by {
                    if runs@.len() == 0 {
                        let i = choose|i: int| 0 <= i < wr.len() && #[trigger] wr[i] >= l_eff;
                    } else {
                        let k = choose|i: int| 0 <= i < runs@.len() && runs@[i] == min_run;
                        assert(wr[k] >= 2);
                    }
                }
                assert(max_run_i >= l_eff) by {
                    let i = choose|i: int| 0 <= i < wr.len() && #[trigger] wr[i] >= l_eff;
                    assert(runs@[i] <= max_run);
                }
            }
        }
        if ok {
            assert(cells_corridor(&d, ring@, 1) && corridor_checks(&d, l_eff as int));
            assert forall|d2: Corridor| #[trigger] cells_corridor(&d2, ring@, 1) implies corridor_checks(&d2, l_eff as int) by {
                lemma_cells_corridor_unique(&d, &d2, ring@, 1);
                lemma_same_cells(&d, &d2);
            }
        } else {
            assert(cells_corridor(&d, ring@, 1));
        }
    }
    ok
}

/// A ring holding the annulus around `p` holds every 4-neighbor of `p` that
/// `p` does not.
proof fn lemma_annulus_seals(p: Set<Point>, ring: Set<Point>)
    requires
        within(p, 67),
        ring_around(p).subset_of(ring),
    ensures
        forall|x: Point, n: Point| p.contains(x) && #[trigger] adjacent4(x, n) ==> p.contains(n) || ring.contains(n),
{
    assert forall|x: Point, n: Point| p.contains(x) && #[trigger] adjacent4(x, n) implies p.contains(n) || ring.contains(n) by {
        assert(moore_near(x, n));
        assert(dilation(p).contains(n));
        if !p.contains(n) {
            assert(ring_around(p).contains(n));
        }
    }
}

/// The ring widened around `p` keeps the annulus, misses `p`, and holds
/// `p` strictly inside its box.
proof fn lemma_grown_ring_around(ring: Set<Point>, p: Set<Point>, a: Seq<u32>)
    requires
        p.finite(),
        within(p, 67),
        a.len() == 4,
        forall|i: int| 0 <= i < 4 ==> a[i] <= WIDEN_MAX,
        ring == widened(ring_around(p), a),
    ensures
        ring.disjoint(p),
        ring_around(p).subset_of(ring),
        strictly_inside(p, ring),
{
    lemma_ring_encloses(p);
    lemma_widened_outward(ring_around(p), a, p);
    assert forall|x: Point| p.contains(x) implies !ring.contains(x) by {}
    lemma_inside_grows(p, ring_around(p), ring);
}

/// An accepted ring widened around a grown infield seals that infield.
proof fn lemma_grown_seal(c: &Corridor, ring: Set<Point>, p: Set<Point>, a: Seq<u32>, base_w: int)
    requires
        cells_corridor(c, ring, 1),
        component_firsts(c, true, false).len() == 1,
        component_firsts(c, false, true).len() == 1,
        p.finite(),
        within(p, 67),
        infield_shape(p, base_w),
        base_w >= 2,
        a.len() == 4,
        forall|i: int| 0 <= i < 4 ==> a[i] <= WIDEN_MAX,
        ring == widened(ring_around(p), a),
    ensures
        sealed_infield(ring, p),
{
    lemma_grown_ring_around(ring, p, a);
    assert(p.contains((0i32, 0i32)));
    lemma_annulus_seals(p, ring);
    lemma_sealed_of_accepted(c, ring, p);
}

/// A set within `[-a, a]²` is within any larger square.
proof fn lemma_within_mono(s: Set<Point>, a: int, b: int)
    requires
        within(s, a),
        a <= b,
    ensures
        within(s, b),
{
}

/// An attempt's accepted ring seals its infield.
proof fn lemma_attempt_sealed(ring: Set<Point>, p: Set<Point>, a: Seq<u32>, base_w: int, l_eff: int)
    requires
        exists|c: Corridor| #[trigger] cells_corridor(&c, ring, 1) && corridor_checks(&c, l_eff),
        p.finite(),
        within(p, 67),
        infield_shape(p, base_w),
        base_w >= 2,
        a.len() == 4,
        forall|i: int| 0 <= i < 4 ==> a[i] <= WIDEN_MAX,
        ring == widened(ring_around(p), a),
    ensures
        sealed_infield(ring, p),
{
    let c = choose|c: Corridor| #[trigger] cells_corridor(&c, ring, 1) && corridor_checks(&c, l_eff);
    lemma_grown_seal(&c, ring, p, a, base_w);
}

/// What one attempt does from generator state `g`: the infield drawn, the
/// ring around it widened by the drawn amounts, and — when that ring
/// passes the acceptance checks — the drawn direction; then the state
/// after.
pub open spec fn attempt_draws(l_min: int, g: Xoshiro256PlusPlus) -> (Option<(Set<Point>, Set<Point>, RaceDir)>, Xoshiro256PlusPlus) {
    let (p, g1) = infield_draws(l_min, g);
    let (a, g2) = widen_draws(g1);
    let ring = widened(ring_around(p), a);
    if ring_accepted(ring, l_eff_of(l_min)) {
        let (dir, g3) = dir_draw(g2);
        (Some((ring, p, dir)), g3)
    } else {
        (None, g2)
    }
}

/// What up to `k` attempts and then the rectangular fallback do from
/// generator state `g`: the ring, the infield and the direction, whether
/// the fallback was taken, and the state after.
pub open spec fn attempts_draws(l_min: int, g: Xoshiro256PlusPlus, k: nat) -> ((Set<Point>, Set<Point>, RaceDir), bool, Xoshiro256PlusPlus)
    decreases k,
{
    if k == 0 {
        let w = rect_width(l_eff_of(l_min));
        let (dir, g2) = dir_draw(g);
        ((rect_ring(w, MIN_RECT_H as int), rect_hole(w, MIN_RECT_H as int), dir), true, g2)
    } else {
        let (o, g2) = attempt_draws(l_min, g);
        match o {
            Some(x) => (x, false, g2),
            None => attempts_draws(l_min, g2, (k - 1) as nat),
        }
    }
}

/// One attempt: builds `P`, rings and widens it, and keeps the result only
/// if it passes the acceptance checks (drawing the orientation then).
#[verifier::rlimit(50)]
fn try_attempt(l_min: i32, rng: &mut Xoshiro256PlusPlus) -> (r: Option<CoarseSkeleton>)
    ensures
        (match r {
            Some(skel) => Some((skel.ring@, skel.hole@, skel.dir)),
            None => None,
        }, *final(rng)) == attempt_draws(l_min as int, *old(rng)),
        r matches Some(skel) ==> exists|g: Xoshiro256PlusPlus|
            race_dir_draw(seq![RaceDir::Cw, RaceDir::Ccw], g) == (Some(skel.dir), *final(rng)),
        r matches Some(skel) ==> ring_accepted(skel.ring@, l_eff_of(l_min as int))
            && infield_shape(skel.hole@, base_width_of(l_eff_of(l_min as int)))
            && skel.ring@.disjoint(skel.hole@) && ring_around(skel.hole@).subset_of(skel.ring@)
            && sealed_infield(skel.ring@, skel.hole@) && within(skel.ring@, 80) && within(skel.hole@, 80)
            && exists|a: Seq<u32>| #![trigger widened(ring_around(skel.hole@), a)] a.len() == 4 && (forall|i: int| 0 <= i < 4 ==> a[i] <= WIDEN_MAX)
                && skel.ring@ == widened(ring_around(skel.hole@), a),
        r is None ==> exists|hole: Set<Point>, a: Seq<u32>|
            #![trigger widened(ring_around(hole), a)]
            infield_shape(hole, base_width_of(l_eff_of(l_min as int))) && within(hole, 67) && a.len() == 4 && (forall|i: int|
                0 <= i < 4 ==> a[i] <= WIDEN_MAX) && !ring_accepted(widened(ring_around(hole), a), l_eff_of(l_min as int)),
{
    let (p, l_eff2, base_w) = build_p(l_min, rng);
    let around = ring_from_p(&p);
    let ring = widen(&around, rng);
    let ghost a = choose|a: Seq<u32>| #![trigger widened(around@, a)] a.len() == 4 && (forall|i: int| 0 <= i < 4 ==> a[i] <= WIDEN_MAX) && ring@ == widened(around@, a);
    proof {
        lemma_dilation_within(p@, 67);
        assert(within(around@, 68));
        lemma_widened_within(around@, a, 68);
        lemma_ring_encloses(p@);
        lemma_widened_outward(around@, a, p@);
        assert(ring@.disjoint(p@)) by {
            assert forall|c: Point| p@.contains(c) implies !ring@.contains(c) by {}
        }
    }
    if check_ring(&ring, l_eff2) {
        let ghost g_dir = *rng;
        let dir = choose_dir(rng);
        proof {
            lemma_attempt_sealed(ring@, p@, a, base_w as int, l_eff2 as int);
            lemma_within_mono(p@, 67, 80);
            assert(ring@ == widened(ring_around(p@), a));
            assert(ring_accepted(ring@, l_eff_of(l_min as int)));
            assert(infield_shape(p@, base_width_of(l_eff_of(l_min as int))));
        }
        let skel = CoarseSkeleton { ring, hole: p, dir };
        proof {
            assert(skel.ring@ == widened(ring_around(skel.hole@), a));
            assert(race_dir_draw(seq![RaceDir::Cw, RaceDir::Ccw], g_dir) == (Some(skel.dir), *rng));
        }
        Some(skel)
    } else {
        proof {
            assert(ring@ == widened(ring_around(p@), a));
            assert(!ring_accepted(widened(ring_around(p@), a), l_eff_of(l_min as int)));
        }
        None
    }
}

/// The skeleton's core, parameterized over the retry budget: up to
/// `max_attempts` same-stream attempts (build `P`, ring it, widen, check),
/// then the rectangular fallback. Returns the skeleton and whether it is the
/// fallback.
pub fn phase1_coarse_ring_attempts(l_min: i32, rng: &mut Xoshiro256PlusPlus, max_attempts: u32) -> (r: (CoarseSkeleton, bool))
    ensures
        ((r.0.ring@, r.0.hole@, r.0.dir), r.1, *final(rng)) == attempts_draws(l_min as int, *old(rng), max_attempts as nat),
        ring_accepted(r.0.ring@, l_eff_of(l_min as int)),
        sealed_infield(r.0.ring@, r.0.hole@),
        within(r.0.ring@, 80) && within(r.0.hole@, 80),
        r.1 ==> r.0.ring@ == rect_ring(rect_width(l_eff_of(l_min as int)), MIN_RECT_H as int)
            && r.0.hole@ == rect_hole(rect_width(l_eff_of(l_min as int)), MIN_RECT_H as int),
        r.0.ring@.disjoint(r.0.hole@),
        !r.1 ==> ring_around(r.0.hole@).subset_of(r.0.ring@),
        !r.1 ==> infield_shape(r.0.hole@, base_width_of(l_eff_of(l_min as int)))
            && exists|a: Seq<u32>| #![trigger widened(ring_around(r.0.hole@), a)] a.len() == 4 && (forall|i: int| 0 <= i < 4 ==> a[i] <= WIDEN_MAX)
                && r.0.ring@ == widened(ring_around(r.0.hole@), a),
        max_attempts == 0 ==> r.1,
        exists|g: Xoshiro256PlusPlus| race_dir_draw(seq![RaceDir::Cw, RaceDir::Ccw], g) == (Some(r.0.dir), *final(rng)),
        r.1 ==> exists|fails: Seq<(Set<Point>, Seq<u32>)>| fails.len() == max_attempts && forall|i: int|
            0 <= i < fails.len() ==> #[trigger] failed_attempt(fails[i], l_min as int),
{
    let l_eff = clamp_l_min(l_min);
    let mut attempt: u32 = 0;
    let ghost mut fails: Seq<(Set<Point>, Seq<u32>)> = Seq::empty();
    let ghost g0 = *rng;
    while attempt < max_attempts
        invariant
            attempts_draws(l_min as int, *rng, (max_attempts - attempt) as nat) == attempts_draws(l_min as int, g0, max_attempts as nat),
            g0 == *old(rng),
            l_eff == l_eff_of(l_min as int),
            attempt <= max_attempts,
            fails.len() == attempt,
            forall|i: int| 0 <= i < fails.len() ==> #[trigger] failed_attempt(fails[i], l_min as int),
        decreases max_attempts - attempt,
    {
        let ghost before = *rng;
        let tried = try_attempt(l_min, rng);
        proof {
            assert(attempts_draws(l_min as int, before, (max_attempts - attempt) as nat) == match attempt_draws(l_min as int, before).0 {
                Some(x) => (x, false, attempt_draws(l_min as int, before).1),
                None => attempts_draws(l_min as int, attempt_draws(l_min as int, before).1, (max_attempts - attempt - 1) as nat),
            });
        }
        if let Some(skel) = tried {
            proof {
                assert(attempt_draws(l_min as int, before) == (Some((skel.ring@, skel.hole@, skel.dir)), *rng));
                assert(attempts_draws(l_min as int, g0, max_attempts as nat) == ((skel.ring@, skel.hole@, skel.dir), false, *rng));
            }
            return (skel, false);
        }
        proof {
            let (hole, a) = choose|hole: Set<Point>, a: Seq<u32>|
                #![trigger widened(ring_around(hole), a)]
                infield_shape(hole, base_width_of(l_eff_of(l_min as int))) && within(hole, 67) && a.len() == 4 && (forall|i: int|
                    0 <= i < 4 ==> a[i] <= WIDEN_MAX) && !ring_accepted(widened(ring_around(hole), a), l_eff_of(l_min as int));
            assert(failed_attempt((hole, a), l_min as int));
            fails = fails.push((hole, a));
            assert forall|i: int| 0 <= i < fails.len() implies #[trigger] failed_attempt(fails[i], l_min as int) by {
                if i < fails.len() - 1 {
                    assert(fails[i] == fails.drop_last()[i]);
                }
            }
        }
        attempt = attempt + 1;
    }
    let (ring, hole) = rectangular_fallback(l_eff);
    proof {
        lemma_fallback_built(l_eff as int);
        assert(fails.len() == max_attempts);
    }
    let ghost g_dir = *rng;
    let dir = choose_dir(rng);
    proof {
        assert(race_dir_draw(seq![RaceDir::Cw, RaceDir::Ccw], g_dir) == (Some(dir), *rng));
    }
    (CoarseSkeleton { ring, hole, dir }, true)
}

/// A failed growth attempt: an infield of the attempt's shape, four drawn
/// widening amounts, and the widened ring around the infield failing the
/// acceptance checks.
pub open spec fn failed_attempt(f: (Set<Point>, Seq<u32>), l_min: int) -> bool {
    &&& infield_shape(f.0, base_width_of(l_eff_of(l_min)))
    &&& within(f.0, 67)
    &&& f.1.len() == 4
    &&& forall|i: int| 0 <= i < 4 ==> f.1[i] <= WIDEN_MAX
    &&& !ring_accepted(widened(ring_around(f.0), f.1), l_eff_of(l_min))
}

/// The skeleton is a grown one: the widened ring around an infield of the
/// attempt's shape, keeping every cell around the infield.
pub open spec fn grown_skeleton(skel: &CoarseSkeleton, l_min: int) -> bool {
    &&& infield_shape(skel.hole@, base_width_of(l_eff_of(l_min)))
    &&& ring_around(skel.hole@).subset_of(skel.ring@)
    &&& exists|a: Seq<u32>| #![trigger widened(ring_around(skel.hole@), a)] a.len() == 4 && (forall|i: int| 0 <= i < 4 ==> a[i] <= WIDEN_MAX)
        && skel.ring@ == widened(ring_around(skel.hole@), a)
}

/// The skeleton's ring always passes the acceptance checks, never touches
/// the hole and seals it (both connected, the hole strictly inside the
/// ring's box, every 4-neighbor of a hole cell in the hole or the ring),
/// both lie near the origin, and the ring is either the widened ring
/// around a grown infield (keeping every cell around it), or the
/// rectangular fallback.
pub open spec fn skeleton_built(skel: &CoarseSkeleton, l_min: int) -> bool {
    &&& ring_accepted(skel.ring@, l_eff_of(l_min))
    &&& skel.ring@.disjoint(skel.hole@)
    &&& sealed_infield(skel.ring@, skel.hole@)
    &&& within(skel.ring@, 80) && within(skel.hole@, 80)
    &&& {
    ||| skel.ring@ == rect_ring(rect_width(l_eff_of(l_min)), MIN_RECT_H as int)
        && skel.hole@ == rect_hole(rect_width(l_eff_of(l_min)), MIN_RECT_H as int)
    ||| infield_shape(skel.hole@, base_width_of(l_eff_of(l_min)))
        && ring_around(skel.hole@).subset_of(skel.ring@)
        && exists|a: Seq<u32>| #![trigger widened(ring_around(skel.hole@), a)] a.len() == 4 && (forall|i: int| 0 <= i < 4 ==> a[i] <= WIDEN_MAX)
            && skel.ring@ == widened(ring_around(skel.hole@), a)
    }
}

/// Builds a coarse-block ring skeleton for a minimum straight length and a
/// random stream. Infallible: a bounded same-stream retry plus a
/// guaranteed rectangular fallback. The ring's corridor padded by one cell
/// is one drivable component around exactly one hole (the counts
/// [`component_count`] and [`bounded_complement_components`] return on
/// it), and the ring and the infield each lie within 80 cells of the
/// origin, so each holds at most `161²` cells.
pub fn phase1_coarse_ring(l_min: i32, rng: &mut Xoshiro256PlusPlus) -> (skel: CoarseSkeleton)
    ensures
        (skel.ring@, skel.hole@, skel.dir) == attempts_draws(l_min as int, *old(rng), MAX_ATTEMPTS as nat).0,
        *final(rng) == attempts_draws(l_min as int, *old(rng), MAX_ATTEMPTS as nat).2,
        skeleton_built(&skel, l_min as int),
        grown_skeleton(&skel, l_min as int) || exists|fails: Seq<(Set<Point>, Seq<u32>)>| fails.len() == MAX_ATTEMPTS && forall|i: int|
            0 <= i < fails.len() ==> #[trigger] failed_attempt(fails[i], l_min as int),
        forall|d: Corridor| #[trigger] cells_corridor(&d, skel.ring@, 1) ==> corridor_checks(&d, l_eff_of(l_min as int)),
        skel.ring@.finite() && skel.ring@.len() <= 161 * 161,
        skel.hole@.finite() && skel.hole@.len() <= 161 * 161,
        exists|g: Xoshiro256PlusPlus| race_dir_draw(seq![RaceDir::Cw, RaceDir::Ccw], g) == (Some(skel.dir), *final(rng)),
{
    let skel = phase1_coarse_ring_attempts(l_min, rng, MAX_ATTEMPTS).0;
    proof {
        reveal(ring_accepted);
        lemma_within_len(skel.ring@, 80);
        lemma_within_len(skel.hole@, 80);
    }
    skel
}

/// Replay: the skeleton is a function of the minimum straight and the
/// generation seed alone — two generations from equal seeds build the same
/// ring, infield and direction and leave their streams in the same state.
pub proof fn lemma_phase1_replays(l_min: int, seed1: u64, seed2: u64)
    requires
        seed1 == seed2,
    ensures
        attempts_draws(l_min, seeded_generator(seed1), MAX_ATTEMPTS as nat) == attempts_draws(
            l_min,
            seeded_generator(seed2),
            MAX_ATTEMPTS as nat,
        ),
{
}

} // verus!
