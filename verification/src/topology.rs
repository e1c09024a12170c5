//! The corridor's topology. When every counted cell of a class is linked
//! to every other, the class has exactly one counted component, and back;
//! a walk through coarse cells lifts to a walk through their fine blocks;
//! and a rasterized skeleton whose ring seals its infield is one
//! 4-connected corridor around exactly one hole, the infield's.

use vstd::prelude::*;
use crate::components::{component_firsts, enclosed, first_of_component, scan_before};
use crate::corridor::Corridor;
use crate::flood::{is_path, lemma_closed_holds_path_end, lemma_linked_extend, lemma_linked_refl, lemma_linked_symm, lemma_linked_trans, linked, member};
use crate::geom::{adjacent4, Point};
use crate::points::{is_max_x, is_max_y, is_min_x, is_min_y};
use crate::raster::{
    across, across_range, along, all_coarse_ok, between, block_size_ok, blocks_of, coarse_ok, extent_spec, in_block,
    is_extent, is_lipschitz_envelope, lemma_rasterize_keeps_ring_and_infield, lemma_rasterized_holes_meet_infield, line_pt,
    pocket, rasterized, ring_box_ok, taper_fills, taper_fills_chain, taper_rel, taper_tops,
};
use crate::skeleton::cells_corridor;
use crate::widening::strictly_inside;

verus! {

broadcast use crate::corridor::Corridor::lemma_has_in_box;

/// `q` counts towards the components of class `want`: a member of the
/// class, in an enclosed component when only bounded ones count.
pub open spec fn counted(d: &Corridor, want: bool, bounded_only: bool, q: Point) -> bool {
    member(d, want, q) && (bounded_only ==> enclosed(d, want, q))
}

/// Every two counted cells of class `want` are linked.
pub open spec fn all_linked(d: &Corridor, want: bool, bounded_only: bool) -> bool {
    forall|p: Point, q: Point| #[trigger] counted(d, want, bounded_only, p) && #[trigger] counted(d, want, bounded_only, q) ==> linked(d, want, p, q)
}

/// The box cells of the first `n` rows.
spec fn box_rows(d: &Corridor, n: int) -> Set<Point> {
    Set::new(|p: Point| d.in_box(p) && p.1 - d.oy() < n)
}

/// The box cells of row `y`.
spec fn box_row(d: &Corridor, y: int) -> Set<Point> {
    Set::new(|p: Point| d.in_box(p) && p.1 == y)
}

proof fn lemma_box_row_finite(d: &Corridor, y: int)
    requires
        d.wf(),
    ensures
        box_row(d, y).finite(),
{
    let xs = vstd::set_lib::set_int_range(d.ox(), d.ox() + d.w());
    vstd::set_lib::lemma_int_range(d.ox(), d.ox() + d.w());
    let f = |x: int| (x as i32, y as i32);
    xs.lemma_map_finite(f);
    assert forall|p: Point| box_row(d, y).contains(p) implies xs.map(f).contains(p) by {
        assert(xs.contains(p.0 as int));
        assert(f(p.0 as int) == p);
    }
    vstd::set_lib::lemma_set_subset_finite(xs.map(f), box_row(d, y));
}

proof fn lemma_box_rows_finite(d: &Corridor, n: int)
    requires
        d.wf(),
        0 <= n,
    ensures
        box_rows(d, n).finite(),
    decreases n,
{
    if n == 0 {
        assert(box_rows(d, n) =~= Set::empty());
    } else {
        lemma_box_rows_finite(d, n - 1);
        lemma_box_row_finite(d, d.oy() + n - 1);
        assert(box_rows(d, n) =~= box_rows(d, n - 1).union(box_row(d, d.oy() + n - 1)));
    }
}

/// The components' first cells are finitely many: they lie in the box.
pub proof fn lemma_firsts_finite(d: &Corridor, want: bool, bounded_only: bool)
    requires
        d.wf(),
    ensures
        component_firsts(d, want, bounded_only).finite(),
{
    lemma_box_rows_finite(d, d.h());
    assert forall|q: Point| component_firsts(d, want, bounded_only).contains(q) implies box_rows(d, d.h()).contains(q) by {}
    vstd::set_lib::lemma_set_subset_finite(box_rows(d, d.h()), component_firsts(d, want, bounded_only));
}

/// A cell's position in the row-major scan of the box.
spec fn rank(d: &Corridor, p: Point) -> int {
    (p.1 - d.oy()) * d.w() + (p.0 - d.ox())
}

proof fn lemma_rank_order(d: &Corridor, a: Point, b: Point)
    requires
        d.in_box(a),
        d.in_box(b),
    ensures
        scan_before(a, b) ==> rank(d, a) < rank(d, b),
        rank(d, a) == rank(d, b) ==> a == b,
        0 <= rank(d, a),
{
    let (ay, by, ax, bx, w) = (a.1 - d.oy(), b.1 - d.oy(), a.0 - d.ox(), b.0 - d.ox(), d.w());
    assert(0 <= ay * w) by (nonlinear_arith)
        requires 0 <= ay, 0 <= w;
    if ay < by {
        assert(ay * w + w <= by * w) by (nonlinear_arith)
            requires ay < by, 0 <= w;
    } else if by < ay {
        assert(by * w + w <= ay * w) by (nonlinear_arith)
            requires by < ay, 0 <= w;
    }
}

/// Some cell linked to `q` has the least scan rank among all of them.
proof fn lemma_least_rank(d: &Corridor, want: bool, q: Point, bound: int)
    requires
        exists|r: Point| #[trigger] linked(d, want, q, r) && rank(d, r) <= bound,
    ensures
        exists|m: Point| #[trigger] linked(d, want, q, m) && forall|r: Point| #[trigger] linked(d, want, q, r) ==> rank(d, m) <= rank(d, r),
    decreases bound + d.w() * d.h() + 2,
{
    let r0 = choose|r: Point| #[trigger] linked(d, want, q, r) && rank(d, r) <= bound;
    crate::components::lemma_linked_members(d, want, q, r0);
    lemma_rank_order(d, r0, r0);
    if exists|r: Point| #[trigger] linked(d, want, q, r) && rank(d, r) <= bound - 1 {
        assert(bound - 1 + d.w() * d.h() + 2 >= 0) by {
            assert(0 <= d.w() * d.h()) by (nonlinear_arith)
                requires 0 <= d.w(), 0 <= d.h();
        }
        lemma_least_rank(d, want, q, bound - 1);
    } else {
        assert forall|r: Point| #[trigger] linked(d, want, q, r) implies rank(d, r0) <= rank(d, r) by {}
    }
}

/// Every member of a class has a first cell of its component linked to it.
pub proof fn lemma_has_first(d: &Corridor, want: bool, q: Point)
    requires
        member(d, want, q),
    ensures
        exists|m: Point| #[trigger] first_of_component(d, want, m) && linked(d, want, q, m),
{
    lemma_linked_refl(d, want, q);
    lemma_least_rank(d, want, q, rank(d, q));
    let m = choose|m: Point| #[trigger] linked(d, want, q, m) && forall|r: Point| #[trigger] linked(d, want, q, r) ==> rank(d, m) <= rank(d, r);
    crate::components::lemma_linked_members(d, want, q, m);
    assert forall|r: Point| #[trigger] linked(d, want, m, r) implies !scan_before(r, m) by {
        lemma_linked_trans(d, want, q, m, r);
        crate::components::lemma_linked_members(d, want, m, r);
        lemma_rank_order(d, r, m);
    }
    assert(first_of_component(d, want, m));
}

/// Linked cells share enclosure.
proof fn lemma_enclosed_linked(d: &Corridor, want: bool, p: Point, q: Point)
    requires
        linked(d, want, p, q),
        enclosed(d, want, p),
    ensures
        enclosed(d, want, q),
{
    crate::components::lemma_linked_members(d, want, p, q);
    assert forall|r: Point| #[trigger] linked(d, want, q, r) implies !d.on_border(r) by {
        lemma_linked_trans(d, want, p, q, r);
    }
}

/// Two first cells of one component are the same cell.
proof fn lemma_first_unique(d: &Corridor, want: bool, a: Point, b: Point)
    requires
        first_of_component(d, want, a),
        first_of_component(d, want, b),
        linked(d, want, a, b),
    ensures
        a == b,
{
    lemma_linked_symm(d, want, a, b);
    assert(!scan_before(b, a));
    assert(!scan_before(a, b));
}

/// A class whose counted cells are all linked, and which has one, has
/// exactly one counted component.
pub proof fn lemma_one_component(d: &Corridor, want: bool, bounded_only: bool, q: Point)
    requires
        all_linked(d, want, bounded_only),
        counted(d, want, bounded_only, q),
    ensures
        component_firsts(d, want, bounded_only).len() == 1,
{
    lemma_has_first(d, want, q);
    let m = choose|m: Point| #[trigger] first_of_component(d, want, m) && linked(d, want, q, m);
    if bounded_only {
        lemma_enclosed_linked(d, want, q, m);
    }
    assert(counted(d, want, bounded_only, m));
    assert(component_firsts(d, want, bounded_only) =~= set![m]) by {
        assert forall|f: Point| #[trigger] component_firsts(d, want, bounded_only).contains(f) implies f == m by {
            assert(counted(d, want, bounded_only, f));
            lemma_first_unique(d, want, f, m);
        }
    }
}

/// A class with exactly one counted component has all its counted cells
/// linked.
pub proof fn lemma_all_linked_of_one(d: &Corridor, want: bool, bounded_only: bool)
    requires
        d.wf(),
        component_firsts(d, want, bounded_only).len() == 1,
    ensures
        all_linked(d, want, bounded_only),
{
    lemma_firsts_finite(d, want, bounded_only);
    let fs = component_firsts(d, want, bounded_only);
    let f = fs.choose();
    assert(fs.contains(f));
    assert forall|q: Point| #[trigger] counted(d, want, bounded_only, q) implies linked(d, want, q, f) by {
        lemma_has_first(d, want, q);
        let m = choose|m: Point| #[trigger] first_of_component(d, want, m) && linked(d, want, q, m);
        if bounded_only {
            lemma_enclosed_linked(d, want, q, m);
        }
        assert(fs.contains(m));
        if m != f {
            assert(fs.remove(f).contains(m));
            assert(fs.remove(f).len() == 0);
        }
    }
    assert forall|p: Point, q: Point| #[trigger] counted(d, want, bounded_only, p) && #[trigger] counted(d, want, bounded_only, q) implies linked(d, want, p, q) by {
        lemma_linked_symm(d, want, q, f);
        lemma_linked_trans(d, want, p, f, q);
    }
}

/// `s` is a 4-connected walk through cells of `set`.
pub open spec fn set_path(set: Set<Point>, s: Seq<Point>) -> bool {
    &&& s.len() >= 1
    &&& forall|i: int| 0 <= i < s.len() ==> set.contains(#[trigger] s[i])
    &&& forall|i: int| 0 <= i < s.len() - 1 ==> adjacent4(#[trigger] s[i], s[i + 1])
}

/// Every two cells of `set` are joined by a 4-connected walk through `set`.
pub open spec fn connected(set: Set<Point>) -> bool {
    forall|a: Point, b: Point| set.contains(a) && set.contains(b) ==> exists|s: Seq<Point>| #[trigger] set_path(set, s) && s[0] == a && s.last() == b
}

/// A set whose cells are pairwise linked in a class, and which no walk of
/// the class leaves, is connected.
pub proof fn lemma_connected_of_linked(d: &Corridor, want: bool, set: Set<Point>)
    requires
        forall|a: Point, b: Point| set.contains(a) && set.contains(b) ==> linked(d, want, a, b),
        forall|x: Point, n: Point| set.contains(x) && member(d, want, n) && #[trigger] adjacent4(x, n) ==> #[trigger] set.contains(n),
    ensures
        connected(set),
{
    assert forall|a: Point, b: Point| set.contains(a) && set.contains(b) implies exists|s: Seq<Point>| #[trigger] set_path(set, s) && s[0] == a && s.last() == b by {
        assert(linked(d, want, a, b));
        let s = choose|s: Seq<Point>| #[trigger] is_path(d, want, s) && s[0] == a && s.last() == b;
        assert forall|i: int| 0 <= i < s.len() implies set.contains(#[trigger] s[i]) by {
            let t = s.subrange(0, i + 1);
            assert(is_path(d, want, t)) by {
                assert forall|j: int| 0 <= j < t.len() - 1 implies adjacent4(#[trigger] t[j], t[j + 1]) by {
                    assert(adjacent4(s[j], s[j + 1]));
                }
            }
            lemma_closed_holds_path_end(d, want, t, set);
            assert(t.last() == s[i]);
        }
        assert(set_path(set, s));
    }
}

/// Cells `(x, y)` for `x` from `a` to `b` on one row, all members, link
/// `a` to `b`.
proof fn lemma_row_linked(d: &Corridor, want: bool, y: i32, a: i32, b: i32)
    requires
        a <= b,
        forall|x: i32| a <= x <= b ==> #[trigger] member(d, want, (x, y)),
    ensures
        linked(d, want, (a, y), (b, y)),
    decreases b - a,
{
    if a == b {
        lemma_linked_refl(d, want, (a, y));
    } else {
        let b1 = (b - 1) as i32;
        lemma_row_linked(d, want, y, a, b1);
        assert(member(d, want, (b, y)));
        assert(adjacent4((b1, y), (b, y)));
        lemma_linked_extend(d, want, (a, y), (b1, y), (b, y));
    }
}

/// Cells `(x, y)` for `y` from `a` to `b` on one column, all members, link
/// `a` to `b`.
proof fn lemma_col_linked(d: &Corridor, want: bool, x: i32, a: i32, b: i32)
    requires
        a <= b,
        forall|y: i32| a <= y <= b ==> #[trigger] member(d, want, (x, y)),
    ensures
        linked(d, want, (x, a), (x, b)),
    decreases b - a,
{
    if a == b {
        lemma_linked_refl(d, want, (x, a));
    } else {
        let b1 = (b - 1) as i32;
        lemma_col_linked(d, want, x, a, b1);
        assert(member(d, want, (x, b)));
        assert(adjacent4((x, b1), (x, b)));
        lemma_linked_extend(d, want, (x, a), (x, b1), (x, b));
    }
}

/// Every fine cell of block `c` is a member.
pub open spec fn block_members(d: &Corridor, want: bool, c: Point, k: int) -> bool {
    forall|p: Point| #[trigger] in_block(p, c, k) ==> member(d, want, p)
}

/// Two cells of one all-member block are linked.
proof fn lemma_block_linked(d: &Corridor, want: bool, c: Point, k: int, p: Point, q: Point)
    requires
        block_members(d, want, c, k),
        in_block(p, c, k),
        in_block(q, c, k),
    ensures
        linked(d, want, p, q),
{
    let z: Point = (q.0, p.1);
    assert(in_block(z, c, k));
    if p.0 <= q.0 {
        assert forall|x: i32| p.0 <= x <= q.0 implies #[trigger] member(d, want, (x, p.1)) by {
            assert(in_block((x, p.1), c, k));
        }
        lemma_row_linked(d, want, p.1, p.0, q.0);
    } else {
        assert forall|x: i32| q.0 <= x <= p.0 implies #[trigger] member(d, want, (x, p.1)) by {
            assert(in_block((x, p.1), c, k));
        }
        lemma_row_linked(d, want, p.1, q.0, p.0);
        lemma_linked_symm(d, want, (q.0, p.1), (p.0, p.1));
    }
    if z.1 <= q.1 {
        assert forall|y: i32| z.1 <= y <= q.1 implies #[trigger] member(d, want, (q.0, y)) by {
            assert(in_block((q.0, y), c, k));
        }
        lemma_col_linked(d, want, q.0, z.1, q.1);
    } else {
        assert forall|y: i32| q.1 <= y <= z.1 implies #[trigger] member(d, want, (q.0, y)) by {
            assert(in_block((q.0, y), c, k));
        }
        lemma_col_linked(d, want, q.0, q.1, z.1);
        lemma_linked_symm(d, want, (q.0, q.1), (q.0, z.1));
    }
    lemma_linked_trans(d, want, p, z, q);
}

/// Two 4-adjacent all-member blocks in the domain have linked cells.
proof fn lemma_adjacent_blocks_linked(d: &Corridor, want: bool, c1: Point, c2: Point, k: int, p: Point, q: Point)
    requires
        block_size_ok(k),
        coarse_ok(c1),
        coarse_ok(c2),
        adjacent4(c1, c2),
        block_members(d, want, c1, k),
        block_members(d, want, c2, k),
        in_block(p, c1, k),
        in_block(q, c2, k),
    ensures
        linked(d, want, p, q),
{
    assert(-0x1000_0000 <= c1.0 * k <= 0x1000_0000 && -0x1000_0000 <= c1.1 * k <= 0x1000_0000) by (nonlinear_arith)
        requires -16384 <= c1.0 <= 16384, -16384 <= c1.1 <= 16384, 1 <= k <= 16384;
    if c2.0 == c1.0 + 1 {
        assert(c2.0 * k == c1.0 * k + k) by (nonlinear_arith)
            requires c2.0 == c1.0 + 1;
        let a: Point = ((c1.0 * k + k - 1) as i32, (c1.1 * k) as i32);
        let b: Point = ((c2.0 * k) as i32, (c1.1 * k) as i32);
        assert(in_block(a, c1, k) && in_block(b, c2, k));
        lemma_block_linked(d, want, c1, k, p, a);
        lemma_linked_extend(d, want, p, a, b);
        lemma_block_linked(d, want, c2, k, b, q);
        lemma_linked_trans(d, want, p, b, q);
    } else if c1.0 == c2.0 + 1 {
        assert(c1.0 * k == c2.0 * k + k) by (nonlinear_arith)
            requires c1.0 == c2.0 + 1;
        let a: Point = ((c1.0 * k) as i32, (c1.1 * k) as i32);
        let b: Point = ((c2.0 * k + k - 1) as i32, (c1.1 * k) as i32);
        assert(in_block(a, c1, k) && in_block(b, c2, k));
        lemma_block_linked(d, want, c1, k, p, a);
        lemma_linked_extend(d, want, p, a, b);
        lemma_block_linked(d, want, c2, k, b, q);
        lemma_linked_trans(d, want, p, b, q);
    } else if c2.1 == c1.1 + 1 {
        assert(c2.1 * k == c1.1 * k + k) by (nonlinear_arith)
            requires c2.1 == c1.1 + 1;
        let a: Point = ((c1.0 * k) as i32, (c1.1 * k + k - 1) as i32);
        let b: Point = ((c1.0 * k) as i32, (c2.1 * k) as i32);
        assert(in_block(a, c1, k) && in_block(b, c2, k));
        lemma_block_linked(d, want, c1, k, p, a);
        lemma_linked_extend(d, want, p, a, b);
        lemma_block_linked(d, want, c2, k, b, q);
        lemma_linked_trans(d, want, p, b, q);
    } else {
        assert(c1.1 * k == c2.1 * k + k) by (nonlinear_arith)
            requires c1.1 == c2.1 + 1;
        let a: Point = ((c1.0 * k) as i32, (c1.1 * k) as i32);
        let b: Point = ((c1.0 * k) as i32, (c2.1 * k + k - 1) as i32);
        assert(in_block(a, c1, k) && in_block(b, c2, k));
        lemma_block_linked(d, want, c1, k, p, a);
        lemma_linked_extend(d, want, p, a, b);
        lemma_block_linked(d, want, c2, k, b, q);
        lemma_linked_trans(d, want, p, b, q);
    }
}

/// A walk through coarse cells whose blocks are all members lifts to a link
/// between any cell of its first block and any cell of its last.
proof fn lemma_lift_walk(d: &Corridor, want: bool, set: Set<Point>, k: int, s: Seq<Point>, p: Point, q: Point)
    requires
        block_size_ok(k),
        all_coarse_ok(set),
        set_path(set, s),
        forall|c: Point| #[trigger] set.contains(c) ==> block_members(d, want, c, k),
        in_block(p, s[0], k),
        in_block(q, s.last(), k),
    ensures
        linked(d, want, p, q),
    decreases s.len(),
{
    if s.len() == 1 {
        assert(set.contains(s[0]));
        lemma_block_linked(d, want, s[0], k, p, q);
    } else {
        let t = s.drop_last();
        assert(set_path(set, t)) by {
            assert forall|i: int| 0 <= i < t.len() - 1 implies adjacent4(#[trigger] t[i], t[i + 1]) by {
                assert(adjacent4(s[i], s[i + 1]));
            }
            assert forall|i: int| 0 <= i < t.len() implies set.contains(#[trigger] t[i]) by {
                assert(set.contains(s[i]));
            }
        }
        let c1 = t.last();
        let c2 = s.last();
        assert(set.contains(s[s.len() - 2]) && set.contains(s[s.len() - 1]));
        assert(adjacent4(s[s.len() - 2], s[s.len() - 1]));
        assert(coarse_ok(c1) && coarse_ok(c2));
        assert(-0x1000_0000 <= c1.0 * k <= 0x1000_0000 && -0x1000_0000 <= c1.1 * k <= 0x1000_0000) by (nonlinear_arith)
            requires -16384 <= c1.0 <= 16384, -16384 <= c1.1 <= 16384, 1 <= k <= 16384;
        let m: Point = ((c1.0 * k) as i32, (c1.1 * k) as i32);
        assert(in_block(m, c1, k));
        lemma_lift_walk(d, want, set, k, t, p, m);
        lemma_adjacent_blocks_linked(d, want, c1, c2, k, m, q);
        lemma_linked_trans(d, want, p, m, q);
    }
}

/// The fine blocks of a connected coarse set, all members, are pairwise
/// linked.
pub proof fn lemma_blocks_linked(d: &Corridor, want: bool, set: Set<Point>, k: int, p: Point, q: Point)
    requires
        block_size_ok(k),
        all_coarse_ok(set),
        connected(set),
        forall|c: Point| #[trigger] set.contains(c) ==> block_members(d, want, c, k),
        blocks_of(set, k).contains(p),
        blocks_of(set, k).contains(q),
    ensures
        linked(d, want, p, q),
{
    let a = choose|c: Point| set.contains(c) && #[trigger] in_block(p, c, k);
    let b = choose|c: Point| set.contains(c) && #[trigger] in_block(q, c, k);
    let s = choose|s: Seq<Point>| #[trigger] set_path(set, s) && s[0] == a && s.last() == b;
    lemma_lift_walk(d, want, set, k, s, p, q);
}

/// Links among a corridor's drivable cells survive adding drivable cells
/// in the same box.
proof fn lemma_linked_grow(a: &Corridor, b: &Corridor, p: Point, q: Point)
    requires
        b.same_box(a),
        forall|x: Point| #[trigger] a.has(x) ==> b.has(x),
        linked(a, true, p, q),
    ensures
        linked(b, true, p, q),
{
    let s = choose|s: Seq<Point>| #[trigger] is_path(a, true, s) && s[0] == p && s.last() == q;
    assert forall|i: int| 0 <= i < s.len() implies member(b, true, #[trigger] s[i]) by {
        assert(member(a, true, s[i]));
    }
    assert(is_path(b, true, s));
}

/// A cell a taper pass made drivable is linked, through the cells the
/// pass filled, to its line's extent, which was already drivable.
proof fn lemma_taper_anchor(a: &Corridor, b: &Corridor, h: Set<Point>, vertical: bool, sign: int, q: Point)
    requires
        taper_rel(a, b, h, vertical, sign),
        sign == 1 || sign == -1,
        b.has(q),
    ensures
        exists|e: Point| #[trigger] a.has(e) && linked(b, true, q, e),
{
    if a.has(q) {
        lemma_linked_refl(b, true, q);
        return;
    }
    let env = choose|env: Seq<i32>| #![trigger is_lipschitz_envelope(env, taper_tops(a, h, vertical, sign))]
        is_lipschitz_envelope(env, taper_tops(a, h, vertical, sign)) && forall|x: Point|
            #[trigger] b.has(x) == (a.has(x) || taper_fills(a, h, vertical, sign, env, x));
    assert(taper_fills(a, h, vertical, sign, env, q));
    let line = across(vertical, q);
    let ex = extent_spec(a, vertical, line, sign)->Some_0;
    let target = env[line - across_range(a, vertical).0] * sign;
    assert(is_extent(a, vertical, line, sign, ex)) by {
        assert(exists|x: int| is_extent(a, vertical, line, sign, x));
    }
    let e = line_pt(vertical, line, ex);
    assert(a.has(e));
    let v = along(vertical, q);
    assert forall|u: int| #[trigger] between(ex, u, v, sign) implies b.has(line_pt(vertical, line, u)) by {
        let pt = line_pt(vertical, line, u);
        assert(across(vertical, pt) == line);
        assert(along(vertical, pt) == u);
        assert(taper_fills(a, h, vertical, sign, env, pt));
    }
    if !vertical {
        let y = q.1;
        assert(e == (ex as i32, y));
        if sign == 1 {
            assert forall|x: i32| ex <= x <= q.0 implies #[trigger] member(b, true, (x, y)) by {
                if x > ex {
                    assert(between(ex, x as int, v, sign));
                    assert(line_pt(vertical, line, x as int) == (x, y));
                }
            }
            lemma_row_linked(b, true, y, ex as i32, q.0);
            lemma_linked_symm(b, true, e, q);
        } else {
            assert forall|x: i32| q.0 <= x <= ex implies #[trigger] member(b, true, (x, y)) by {
                if x < ex {
                    assert(between(ex, x as int, v, sign));
                    assert(line_pt(vertical, line, x as int) == (x, y));
                }
            }
            lemma_row_linked(b, true, y, q.0, ex as i32);
        }
    } else {
        let x = q.0;
        assert(e == (x, ex as i32));
        if sign == 1 {
            assert forall|y: i32| ex <= y <= q.1 implies #[trigger] member(b, true, (x, y)) by {
                if y > ex {
                    assert(between(ex, y as int, v, sign));
                    assert(line_pt(vertical, line, y as int) == (x, y));
                }
            }
            lemma_col_linked(b, true, x, ex as i32, q.1);
            lemma_linked_symm(b, true, e, q);
        } else {
            assert forall|y: i32| q.1 <= y <= ex implies #[trigger] member(b, true, (x, y)) by {
                if y < ex {
                    assert(between(ex, y as int, v, sign));
                    assert(line_pt(vertical, line, y as int) == (x, y));
                }
            }
            lemma_col_linked(b, true, x, q.1, ex as i32);
        }
    }
}

/// A taper pass keeps a connected corridor connected.
pub proof fn lemma_taper_keeps_linked(a: &Corridor, b: &Corridor, h: Set<Point>, vertical: bool, sign: int)
    requires
        taper_rel(a, b, h, vertical, sign),
        sign == 1 || sign == -1,
        all_linked(a, true, false),
    ensures
        all_linked(b, true, false),
        forall|x: Point| #[trigger] a.has(x) ==> b.has(x),
{
    let env = choose|env: Seq<i32>| #![trigger is_lipschitz_envelope(env, taper_tops(a, h, vertical, sign))]
        is_lipschitz_envelope(env, taper_tops(a, h, vertical, sign)) && forall|x: Point|
            #[trigger] b.has(x) == (a.has(x) || taper_fills(a, h, vertical, sign, env, x));
    assert forall|x: Point| #[trigger] a.has(x) implies b.has(x) by {}
    assert forall|p: Point, q: Point| #[trigger] counted(b, true, false, p) && #[trigger] counted(b, true, false, q) implies linked(b, true, p, q) by {
        lemma_taper_anchor(a, b, h, vertical, sign, p);
        lemma_taper_anchor(a, b, h, vertical, sign, q);
        let ep = choose|e: Point| #[trigger] a.has(e) && linked(b, true, p, e);
        let eq = choose|e: Point| #[trigger] a.has(e) && linked(b, true, q, e);
        assert(counted(a, true, false, ep) && counted(a, true, false, eq));
        lemma_linked_grow(a, b, ep, eq);
        lemma_linked_symm(b, true, q, eq);
        lemma_linked_trans(b, true, p, ep, eq);
        lemma_linked_trans(b, true, p, eq, q);
    }
}

/// A pocket stays a pocket along its component.
proof fn lemma_pocket_linked(d: &Corridor, h: Set<Point>, q: Point, x: Point)
    requires
        pocket(d, h, q),
        linked(d, false, q, x),
    ensures
        pocket(d, h, x),
{
    crate::components::lemma_linked_members(d, false, q, x);
    assert forall|r: Point| #[trigger] linked(d, false, x, r) implies !d.on_border(r) && !h.contains(r) by {
        lemma_linked_trans(d, false, q, x, r);
    }
}

/// An absorbed pocket cell is linked, through its pocket, to a cell that
/// was drivable before the absorption.
proof fn lemma_pocket_anchor(d1: &Corridor, h: Set<Point>, d: &Corridor, q: Point)
    requires
        d.same_box(d1),
        forall|x: Point| #[trigger] d.has(x) == (d1.has(x) || pocket(d1, h, x)),
        pocket(d1, h, q),
    ensures
        exists|e: Point| #[trigger] d1.has(e) && linked(d, true, q, e),
{
    lemma_has_first(d1, false, q);
    let m = choose|m: Point| #[trigger] first_of_component(d1, false, m) && linked(d1, false, q, m);
    assert(!d1.on_border(m));
    assert(member(d1, false, m));
    assert(d1.in_box(m));
    assert(m.0 != d1.ox());
    assert(m.0 - 1 >= d1.ox());
    d1.lemma_origin_range();
    let n: Point = ((m.0 - 1) as i32, m.1);
    assert(n.0 == m.0 - 1);
    assert(d1.in_box(n));
    if !d1.has(n) {
        assert(adjacent4(m, n));
        lemma_linked_refl(d1, false, m);
        crate::flood::lemma_linked_extend(d1, false, m, m, n);
        assert(scan_before(n, m));
    }
    let s = choose|s: Seq<Point>| #[trigger] is_path(d1, false, s) && s[0] == q && s.last() == m;
    assert forall|i: int| 0 <= i < s.len() implies member(d, true, #[trigger] s[i]) by {
        let t = s.subrange(0, i + 1);
        assert(is_path(d1, false, t)) by {
            assert forall|j: int| 0 <= j < t.len() - 1 implies adjacent4(#[trigger] t[j], t[j + 1]) by {
                assert(adjacent4(s[j], s[j + 1]));
            }
        }
        assert(linked(d1, false, q, s[i])) by {
            assert(t[0] == q && t.last() == s[i]);
        }
        lemma_pocket_linked(d1, h, q, s[i]);
    }
    assert(is_path(d, true, s));
    assert(linked(d, true, q, m));
    assert(adjacent4(m, n));
    lemma_linked_extend(d, true, q, m, n);
}

/// Pocket absorption keeps a connected corridor connected.
pub proof fn lemma_absorb_keeps_linked(d1: &Corridor, h: Set<Point>, d: &Corridor)
    requires
        d.same_box(d1),
        forall|x: Point| #[trigger] d.has(x) == (d1.has(x) || pocket(d1, h, x)),
        all_linked(d1, true, false),
    ensures
        all_linked(d, true, false),
{
    assert forall|x: Point| #[trigger] d1.has(x) implies d.has(x) by {}
    assert forall|p: Point, q: Point| #[trigger] counted(d, true, false, p) && #[trigger] counted(d, true, false, q) implies linked(d, true, p, q) by {
        assert forall|c: Point| #[trigger] d.has(c) implies exists|e: Point| #[trigger] d1.has(e) && linked(d, true, c, e) by {
            if d1.has(c) {
                lemma_linked_refl(d, true, c);
            } else {
                lemma_pocket_anchor(d1, h, d, c);
            }
        }
        let ep = choose|e: Point| #[trigger] d1.has(e) && linked(d, true, p, e);
        let eq = choose|e: Point| #[trigger] d1.has(e) && linked(d, true, q, e);
        assert(counted(d1, true, false, ep) && counted(d1, true, false, eq));
        lemma_linked_grow(d1, d, ep, eq);
        lemma_linked_symm(d, true, q, eq);
        lemma_linked_trans(d, true, p, ep, eq);
        lemma_linked_trans(d, true, p, eq, q);
    }
}

/// The coarse shape a rasterized corridor's topology rests on: a connected
/// ring and a connected, non-empty infield, disjoint, the infield strictly
/// inside the ring's bounding box, and every 4-neighbor of an infield cell
/// in the infield or in the ring.
#[verifier::opaque]
pub open spec fn sealed_infield(ring: Set<Point>, hole: Set<Point>) -> bool {
    &&& connected(ring)
    &&& connected(hole)
    &&& !hole.is_empty()
    &&& ring.disjoint(hole)
    &&& strictly_inside(hole, ring)
    &&& forall|c: Point, n: Point| hole.contains(c) && #[trigger] adjacent4(c, n) ==> hole.contains(n) || ring.contains(n)
}

/// Fine cells of blocks on a coordinate axis: equal cells share a block,
/// and cells one apart lie in blocks at most one apart.
proof fn lemma_block_axis(a: int, b: int, ca: int, cb: int, k: int)
    requires
        k >= 1,
        ca * k <= a < ca * k + k,
        cb * k <= b < cb * k + k,
        -1 <= a - b <= 1,
    ensures
        a == b ==> ca == cb,
        -1 <= ca - cb <= 1,
{
    if ca >= cb + 1 {
        assert(ca * k >= cb * k + k) by (nonlinear_arith)
            requires ca >= cb + 1, k >= 1;
        if ca >= cb + 2 {
            assert(ca * k >= cb * k + 2 * k) by (nonlinear_arith)
                requires ca >= cb + 2, k >= 1;
        }
    }
    if cb >= ca + 1 {
        assert(cb * k >= ca * k + k) by (nonlinear_arith)
            requires cb >= ca + 1, k >= 1;
        if cb >= ca + 2 {
            assert(cb * k >= ca * k + 2 * k) by (nonlinear_arith)
                requires cb >= ca + 2, k >= 1;
        }
    }
}

/// Every fine point lies in the block of its floored coordinates.
proof fn lemma_block_of(p: Point, k: int) -> (c: Point)
    requires
        block_size_ok(k),
    ensures
        in_block(p, c, k),
{
    vstd::arithmetic::div_mod::lemma_fundamental_div_mod(p.0 as int, k);
    vstd::arithmetic::div_mod::lemma_fundamental_div_mod(p.1 as int, k);
    vstd::arithmetic::div_mod::lemma_mod_bound(p.0 as int, k);
    vstd::arithmetic::div_mod::lemma_mod_bound(p.1 as int, k);
    let qx = p.0 as int / k;
    let qy = p.1 as int / k;
    assert(qx * k == k * qx && qy * k == k * qy) by (nonlinear_arith);
    assert(-0x8000_0000 <= qx <= 0x7fff_ffff && -0x8000_0000 <= qy <= 0x7fff_ffff) by {
        if qx < -0x8000_0000 {
            assert(qx * k <= -0x8000_0001 * k) by (nonlinear_arith)
                requires qx < -0x8000_0000, k >= 1;
            assert(-0x8000_0001 * k <= -0x8000_0001) by (nonlinear_arith)
                requires k >= 1;
        }
        if qx > 0x7fff_ffff {
            assert(qx * k >= 0x8000_0000 * k) by (nonlinear_arith)
                requires qx > 0x7fff_ffff, k >= 1;
            assert(0x8000_0000 * k >= 0x8000_0000) by (nonlinear_arith)
                requires k >= 1;
        }
        if qy < -0x8000_0000 {
            assert(qy * k <= -0x8000_0001 * k) by (nonlinear_arith)
                requires qy < -0x8000_0000, k >= 1;
            assert(-0x8000_0001 * k <= -0x8000_0001) by (nonlinear_arith)
                requires k >= 1;
        }
        if qy > 0x7fff_ffff {
            assert(qy * k >= 0x8000_0000 * k) by (nonlinear_arith)
                requires qy > 0x7fff_ffff, k >= 1;
            assert(0x8000_0000 * k >= 0x8000_0000) by (nonlinear_arith)
                requires k >= 1;
        }
    }
    (qx as i32, qy as i32)
}

/// The infield's blocks lie strictly inside the rasterized box: off its
/// border.
proof fn lemma_infield_interior(ring: Set<Point>, hole: Set<Point>, k: int, d0: &Corridor, x: Point)
    requires
        block_size_ok(k),
        strictly_inside(hole, ring),
        ring_box_ok(d0, ring, k),
        blocks_of(hole, k).contains(x),
    ensures
        d0.in_box(x),
        !d0.on_border(x),
{
    let c = choose|c: Point| hole.contains(c) && #[trigger] in_block(x, c, k);
    let a = choose|p: Point| ring.contains(p) && p.0 < c.0;
    let b = choose|p: Point| ring.contains(p) && p.0 > c.0;
    let e = choose|p: Point| ring.contains(p) && p.1 < c.1;
    let f = choose|p: Point| ring.contains(p) && p.1 > c.1;
    assert(!ring.is_empty()) by {
        assert(ring.contains(a));
    }
    let (mx, bx, my, by) = choose|mx: int, bx: int, my: int, by: int|
        #![trigger is_min_x(ring, mx), is_max_x(ring, bx), is_min_y(ring, my), is_max_y(ring, by)]
        is_min_x(ring, mx) && is_max_x(ring, bx) && is_min_y(ring, my) && is_max_y(ring, by)
            && d0.ox() == mx * k - 1 && d0.oy() == my * k - 1 && d0.ox() + d0.w() == (bx + 1) * k + 1
            && d0.oy() + d0.h() == (by + 1) * k + 1;
    assert(mx <= a.0 && b.0 <= bx && my <= e.1 && f.1 <= by);
    let (cx, cy) = (c.0 as int, c.1 as int);
    assert(cx * k >= mx * k + k) by (nonlinear_arith)
        requires cx >= mx + 1, k >= 1;
    assert(cx * k + k <= bx * k) by (nonlinear_arith)
        requires cx + 1 <= bx, k >= 1;
    assert(cy * k >= my * k + k) by (nonlinear_arith)
        requires cy >= my + 1, k >= 1;
    assert(cy * k + k <= by * k) by (nonlinear_arith)
        requires cy + 1 <= by, k >= 1;
    assert((bx + 1) * k == bx * k + k && (by + 1) * k == by * k + k) by (nonlinear_arith);
}

/// The baseline of a connected ring's blocks is one component.
proof fn lemma_baseline_linked(ring: Set<Point>, k: int, d0: &Corridor)
    requires
        connected(ring),
        all_coarse_ok(ring),
        block_size_ok(k),
        d0.drivable() == blocks_of(ring, k),
    ensures
        all_linked(d0, true, false),
{
    assert forall|c: Point| #[trigger] ring.contains(c) implies block_members(d0, true, c, k) by {
        assert forall|p: Point| #[trigger] in_block(p, c, k) implies member(d0, true, p) by {
            assert(blocks_of(ring, k).contains(p));
            assert(d0.drivable().contains(p));
        }
    }
    assert forall|p: Point, q: Point| #[trigger] counted(d0, true, false, p) && #[trigger] counted(d0, true, false, q) implies linked(d0, true, p, q) by {
        assert(d0.drivable().contains(p) && d0.drivable().contains(q));
        lemma_blocks_linked(d0, true, ring, k, p, q);
    }
}

/// The four taper passes keep a connected baseline connected, only adding
/// cells in the same box.
proof fn lemma_chain_linked(d0: &Corridor, d1: &Corridor, h: Set<Point>)
    requires
        taper_fills_chain(d0, d1, h),
        all_linked(d0, true, false),
    ensures
        all_linked(d1, true, false),
        d1.same_box(d0),
        forall|x: Point| #[trigger] d0.has(x) ==> d1.has(x),
{
    let (c1, c2, c3) = choose|c1: Corridor, c2: Corridor, c3: Corridor|
        #![trigger taper_rel(&c1, &c2, h, false, -1), taper_rel(&c2, &c3, h, true, 1)]
        taper_rel(d0, &c1, h, false, 1) && taper_rel(&c1, &c2, h, false, -1) && taper_rel(&c2, &c3, h, true, 1)
            && taper_rel(&c3, d1, h, true, -1);
    lemma_taper_keeps_linked(d0, &c1, h, false, 1);
    lemma_taper_keeps_linked(&c1, &c2, h, false, -1);
    lemma_taper_keeps_linked(&c2, &c3, h, true, 1);
    lemma_taper_keeps_linked(&c3, d1, h, true, -1);
    assert forall|x: Point| #[trigger] d0.has(x) implies d1.has(x) by {
        assert(c1.has(x));
        assert(c2.has(x));
        assert(c3.has(x));
    }
}

/// Every cell of the infield's blocks is an enclosed open cell: the blocks
/// lie off the border, and an open neighbor of one is another one.
proof fn lemma_infield_enclosed(ring: Set<Point>, hole: Set<Point>, k: int, d0: &Corridor, d: &Corridor)
    requires
        sealed_infield(ring, hole),
        block_size_ok(k),
        ring_box_ok(d0, ring, k),
        d0.drivable() == blocks_of(ring, k),
        d.same_box(d0),
        forall|x: Point| #[trigger] d0.has(x) ==> d.has(x),
        forall|x: Point| #[trigger] blocks_of(hole, k).contains(x) ==> !d.has(x),
    ensures
        forall|x: Point| #[trigger] blocks_of(hole, k).contains(x) ==> enclosed(d, false, x),
{
    reveal(sealed_infield);
    let h = blocks_of(hole, k);
    assert forall|x: Point| #[trigger] h.contains(x) implies d.in_box(x) && !d.on_border(x) by {
        lemma_infield_interior(ring, hole, k, d0, x);
    }
    assert forall|x: Point, n: Point| h.contains(x) && member(d, false, n) && #[trigger] adjacent4(x, n) implies #[trigger] h.contains(n) by {
        let c = choose|c: Point| hole.contains(c) && #[trigger] in_block(x, c, k);
        let cn = lemma_block_of(n, k);
        lemma_block_axis(x.0 as int, n.0 as int, c.0 as int, cn.0 as int, k);
        lemma_block_axis(x.1 as int, n.1 as int, c.1 as int, cn.1 as int, k);
        if cn == c {
            assert(h.contains(n));
        } else {
            assert(adjacent4(c, cn));
            if !hole.contains(cn) {
                assert(ring.contains(cn));
                assert(blocks_of(ring, k).contains(n));
                assert(d0.drivable().contains(n));
                assert(d.has(n));
            }
        }
    }
    assert forall|x: Point| #[trigger] h.contains(x) implies enclosed(d, false, x) by {
        assert(member(d, false, x));
        assert forall|r: Point| #[trigger] linked(d, false, x, r) implies !d.on_border(r) by {
            let s = choose|s: Seq<Point>| #[trigger] is_path(d, false, s) && s[0] == x && s.last() == r;
            lemma_closed_holds_path_end(d, false, s, h);
        }
    }
}

/// The block origin of an in-domain coarse cell, a fine point of its block.
proof fn lemma_block_origin_in(c: Point, k: int) -> (p: Point)
    requires
        coarse_ok(c),
        block_size_ok(k),
    ensures
        in_block(p, c, k),
{
    assert(-0x1000_0000 <= c.0 * k <= 0x1000_0000 && -0x1000_0000 <= c.1 * k <= 0x1000_0000) by (nonlinear_arith)
        requires -16384 <= c.0 <= 16384, -16384 <= c.1 <= 16384, 1 <= k <= 16384;
    ((c.0 * k) as i32, (c.1 * k) as i32)
}

/// The baseline and tapered corridors a rasterization is built from.
proof fn lemma_rasterized_parts(ring: Set<Point>, hole: Set<Point>, k: int, d: &Corridor) -> (r: (Corridor, Corridor))
    requires
        rasterized(ring, hole, k, d),
    ensures
        ring_box_ok(&r.0, ring, k),
        r.0.drivable() == blocks_of(ring, k),
        taper_fills_chain(&r.0, &r.1, blocks_of(hole, k)),
        d.same_box(&r.1),
        forall|q: Point| #[trigger] d.has(q) == (r.1.has(q) || pocket(&r.1, blocks_of(hole, k), q)),
{
    choose|d0: Corridor, d1: Corridor|
        #![trigger ring_box_ok(&d0, ring, k), taper_fills_chain(&d0, &d1, blocks_of(hole, k))]
        ring_box_ok(&d0, ring, k) && d0.drivable() == blocks_of(ring, k) && taper_fills_chain(&d0, &d1, blocks_of(hole, k))
            && d.same_box(&d1) && forall|q: Point| #[trigger] d.has(q) == (d1.has(q) || pocket(&d1, blocks_of(hole, k), q))
}

/// A rasterized connected ring is one 4-connected corridor that keeps every
/// baseline cell.
proof fn lemma_rasterized_connected(ring: Set<Point>, hole: Set<Point>, k: int, d: &Corridor) -> (d0: Corridor)
    requires
        connected(ring),
        all_coarse_ok(ring),
        block_size_ok(k),
        rasterized(ring, hole, k, d),
    ensures
        all_linked(d, true, false),
        ring_box_ok(&d0, ring, k),
        d0.drivable() == blocks_of(ring, k),
        d.same_box(&d0),
        forall|x: Point| #[trigger] d0.has(x) ==> d.has(x),
{
    let h = blocks_of(hole, k);
    let (d0, d1) = lemma_rasterized_parts(ring, hole, k, d);
    lemma_baseline_linked(ring, k, &d0);
    lemma_chain_linked(&d0, &d1, h);
    lemma_absorb_keeps_linked(&d1, h, d);
    assert forall|x: Point| #[trigger] d0.has(x) implies d.has(x) by {
        assert(d1.has(x));
    }
    d0
}

/// When the cells of `h` are pairwise linked in the complement and every
/// enclosed cell reaches one of them, all enclosed cells are linked.
proof fn lemma_holes_through(d: &Corridor, h: Set<Point>)
    requires
        forall|p: Point, q: Point| h.contains(p) && h.contains(q) ==> linked(d, false, p, q),
        forall|q: Point| #[trigger] enclosed(d, false, q) ==> exists|r: Point| h.contains(r) && linked(d, false, q, r),
    ensures
        all_linked(d, false, true),
{
    assert forall|p: Point, q: Point| #[trigger] counted(d, false, true, p) && #[trigger] counted(d, false, true, q) implies linked(d, false, p, q) by {
        assert(enclosed(d, false, p) && enclosed(d, false, q));
        let rp = choose|r: Point| h.contains(r) && linked(d, false, p, r);
        let rq = choose|r: Point| h.contains(r) && linked(d, false, q, r);
        assert(linked(d, false, rp, rq));
        lemma_linked_symm(d, false, q, rq);
        lemma_linked_trans(d, false, p, rp, rq);
        lemma_linked_trans(d, false, p, rq, q);
    }
}

/// The open blocks of a connected infield are pairwise linked in the
/// complement.
proof fn lemma_infield_linked(hole: Set<Point>, k: int, d: &Corridor)
    requires
        connected(hole),
        all_coarse_ok(hole),
        block_size_ok(k),
        forall|x: Point| #[trigger] blocks_of(hole, k).contains(x) ==> member(d, false, x),
    ensures
        forall|p: Point, q: Point| blocks_of(hole, k).contains(p) && blocks_of(hole, k).contains(q) ==> linked(d, false, p, q),
{
    assert forall|c: Point| #[trigger] hole.contains(c) implies block_members(d, false, c, k) by {
        assert forall|p: Point| #[trigger] in_block(p, c, k) implies member(d, false, p) by {
            assert(blocks_of(hole, k).contains(p));
        }
    }
    assert forall|p: Point, q: Point| blocks_of(hole, k).contains(p) && blocks_of(hole, k).contains(q) implies linked(d, false, p, q) by {
        lemma_blocks_linked(d, false, hole, k, p, q);
    }
}

/// A rasterized sealed skeleton's complement has every enclosed cell linked
/// to every other, through the infield's blocks.
proof fn lemma_rasterized_holes_linked(ring: Set<Point>, hole: Set<Point>, k: int, d: &Corridor, d0: &Corridor)
    requires
        sealed_infield(ring, hole),
        all_coarse_ok(hole),
        block_size_ok(k),
        rasterized(ring, hole, k, d),
        ring_box_ok(d0, ring, k),
        d0.drivable() == blocks_of(ring, k),
        d.same_box(d0),
        forall|x: Point| #[trigger] d0.has(x) ==> d.has(x),
    ensures
        all_linked(d, false, true),
        forall|x: Point| #[trigger] blocks_of(hole, k).contains(x) ==> enclosed(d, false, x),
{
    reveal(sealed_infield);
    let h = blocks_of(hole, k);
    lemma_rasterize_keeps_ring_and_infield(ring, hole, k, d);
    lemma_infield_enclosed(ring, hole, k, d0, d);
    assert forall|x: Point| #[trigger] h.contains(x) implies member(d, false, x) by {
        assert(enclosed(d, false, x));
    }
    lemma_infield_linked(hole, k, d);
    lemma_rasterized_holes_meet_infield(ring, hole, k, d);
    lemma_holes_through(d, h);
}

/// A rasterized sealed skeleton is one 4-connected corridor around exactly
/// one hole: its drivable cells form one component, and its complement has
/// exactly one bounded component, the infield's.
pub proof fn lemma_rasterized_topology(ring: Set<Point>, hole: Set<Point>, k: int, d: &Corridor)
    requires
        sealed_infield(ring, hole),
        all_coarse_ok(ring),
        all_coarse_ok(hole),
        block_size_ok(k),
        rasterized(ring, hole, k, d),
    ensures
        component_firsts(d, true, false).len() == 1,
        component_firsts(d, false, true).len() == 1,
{
    reveal(sealed_infield);
    let d0 = lemma_rasterized_connected(ring, hole, k, d);
    let c0 = hole.choose();
    assert(hole.contains(c0));
    let r0 = choose|p: Point| ring.contains(p) && p.0 < c0.0;
    let p0 = lemma_block_origin_in(r0, k);
    assert(blocks_of(ring, k).contains(p0));
    assert(d0.drivable().contains(p0));
    assert(counted(d, true, false, p0));
    lemma_one_component(d, true, false, p0);
    lemma_rasterized_holes_linked(ring, hole, k, d, &d0);
    let x0 = lemma_block_origin_in(c0, k);
    assert(blocks_of(hole, k).contains(x0));
    assert(counted(d, false, true, x0));
    lemma_one_component(d, false, true, x0);
}

/// A ring whose padded corridor has one component and one hole, around a
/// non-empty infield strictly inside its box whose every 4-neighbor is in
/// the infield or the ring, seals that infield: ring and infield are each
/// connected.
pub proof fn lemma_sealed_of_accepted(c: &Corridor, ring: Set<Point>, hole: Set<Point>)
    requires
        cells_corridor(c, ring, 1),
        component_firsts(c, true, false).len() == 1,
        component_firsts(c, false, true).len() == 1,
        ring.disjoint(hole),
        !hole.is_empty(),
        strictly_inside(hole, ring),
        forall|x: Point, n: Point| hole.contains(x) && #[trigger] adjacent4(x, n) ==> hole.contains(n) || ring.contains(n),
    ensures
        sealed_infield(ring, hole),
{
    reveal(sealed_infield);
    lemma_all_linked_of_one(c, true, false);
    assert forall|a: Point, b: Point| ring.contains(a) && ring.contains(b) implies linked(c, true, a, b) by {
        assert(c.has(a) && c.has(b));
        assert(counted(c, true, false, a) && counted(c, true, false, b));
    }
    assert forall|x: Point, n: Point| ring.contains(x) && member(c, true, n) && #[trigger] adjacent4(x, n) implies #[trigger] ring.contains(n) by {}
    lemma_connected_of_linked(c, true, ring);
    let x0 = hole.choose();
    assert(hole.contains(x0));
    let a0 = choose|p: Point| ring.contains(p) && p.0 < x0.0;
    assert(!ring.is_empty()) by {
        assert(ring.contains(a0));
    }
    let (mx, bx, my, by) = choose|mx: int, bx: int, my: int, by: int|
        #![trigger is_min_x(ring, mx), is_max_x(ring, bx), is_min_y(ring, my), is_max_y(ring, by)]
        is_min_x(ring, mx) && is_max_x(ring, bx) && is_min_y(ring, my) && is_max_y(ring, by)
            && c.ox() == mx - 1 && c.oy() == my - 1 && c.ox() + c.w() == bx + 1 + 1 && c.oy() + c.h() == by + 1 + 1;
    assert forall|x: Point| #[trigger] hole.contains(x) implies c.in_box(x) && !c.on_border(x) && !c.has(x) by {
        let a = choose|p: Point| ring.contains(p) && p.0 < x.0;
        let b = choose|p: Point| ring.contains(p) && p.0 > x.0;
        let e = choose|p: Point| ring.contains(p) && p.1 < x.1;
        let f = choose|p: Point| ring.contains(p) && p.1 > x.1;
        assert(mx <= a.0 && b.0 <= bx && my <= e.1 && f.1 <= by);
        assert(!ring.contains(x));
    }
    assert forall|x: Point, n: Point| hole.contains(x) && member(c, false, n) && #[trigger] adjacent4(x, n) implies #[trigger] hole.contains(n) by {
        if !hole.contains(n) {
            assert(ring.contains(n));
            assert(c.has(n));
        }
    }
    lemma_all_linked_of_one(c, false, true);
    assert forall|x: Point| #[trigger] hole.contains(x) implies counted(c, false, true, x) by {
        assert(member(c, false, x));
        assert forall|r: Point| #[trigger] linked(c, false, x, r) implies !c.on_border(r) by {
            let s = choose|s: Seq<Point>| #[trigger] is_path(c, false, s) && s[0] == x && s.last() == r;
            lemma_closed_holds_path_end(c, false, s, hole);
        }
    }
    assert forall|a: Point, b: Point| hole.contains(a) && hole.contains(b) implies linked(c, false, a, b) by {
        assert(counted(c, false, true, a) && counted(c, false, true, b));
    }
    lemma_connected_of_linked(c, false, hole);
}

/// `a` and `b` are joined by a 4-connected walk through `set`.
pub open spec fn set_linked(set: Set<Point>, a: Point, b: Point) -> bool {
    exists|s: Seq<Point>| #[trigger] set_path(set, s) && s[0] == a && s.last() == b
}

pub(crate) proof fn lemma_set_linked_refl(set: Set<Point>, a: Point)
    requires
        set.contains(a),
    ensures
        set_linked(set, a, a),
{
    assert(set_path(set, seq![a]));
}

proof fn lemma_set_linked_extend(set: Set<Point>, a: Point, b: Point, c: Point)
    requires
        set_linked(set, a, b),
        set.contains(c),
        adjacent4(b, c),
    ensures
        set_linked(set, a, c),
{
    let s = choose|s: Seq<Point>| #[trigger] set_path(set, s) && s[0] == a && s.last() == b;
    let t = s.push(c);
    assert forall|i: int| 0 <= i < t.len() - 1 implies adjacent4(#[trigger] t[i], t[i + 1]) by {
        if i < s.len() - 1 {
            assert(adjacent4(s[i], s[i + 1]));
        }
    }
    assert forall|i: int| 0 <= i < t.len() implies set.contains(#[trigger] t[i]) by {
        if i < s.len() {
            assert(set.contains(s[i]));
        }
    }
    assert(set_path(set, t));
}

pub(crate) proof fn lemma_set_linked_symm(set: Set<Point>, a: Point, b: Point)
    requires
        set_linked(set, a, b),
    ensures
        set_linked(set, b, a),
{
    let s = choose|s: Seq<Point>| #[trigger] set_path(set, s) && s[0] == a && s.last() == b;
    let r = s.reverse();
    assert forall|i: int| 0 <= i < r.len() - 1 implies adjacent4(#[trigger] r[i], r[i + 1]) by {
        let j = s.len() - 2 - i;
        assert(adjacent4(s[j], s[j + 1]));
    }
    assert forall|i: int| 0 <= i < r.len() implies set.contains(#[trigger] r[i]) by {
        assert(set.contains(s[s.len() - 1 - i]));
    }
    assert(set_path(set, r));
}

pub(crate) proof fn lemma_set_linked_trans(set: Set<Point>, a: Point, b: Point, c: Point)
    requires
        set_linked(set, a, b),
        set_linked(set, b, c),
    ensures
        set_linked(set, a, c),
{
    let s = choose|s: Seq<Point>| #[trigger] set_path(set, s) && s[0] == a && s.last() == b;
    let t = choose|t: Seq<Point>| #[trigger] set_path(set, t) && t[0] == b && t.last() == c;
    let u = s + t.drop_first();
    assert forall|i: int| 0 <= i < u.len() - 1 implies adjacent4(#[trigger] u[i], u[i + 1]) by {
        if i < s.len() - 1 {
            assert(adjacent4(s[i], s[i + 1]));
        } else if i == s.len() - 1 {
            assert(adjacent4(t[0], t[1]));
        } else {
            let j = i - s.len() + 1;
            assert(adjacent4(t[j], t[j + 1]));
        }
    }
    assert forall|i: int| 0 <= i < u.len() implies set.contains(#[trigger] u[i]) by {
        if i < s.len() {
            assert(set.contains(s[i]));
        } else {
            assert(set.contains(t[i - s.len() + 1]));
        }
    }
    assert(set_path(set, u));
}

/// A run of a row inside `set` joins its two ends.
pub(crate) proof fn lemma_set_row(set: Set<Point>, y: i32, a: i32, b: i32)
    requires
        a <= b,
        forall|x: i32| a <= x <= b ==> #[trigger] set.contains((x, y)),
    ensures
        set_linked(set, (a, y), (b, y)),
    decreases b - a,
{
    if a == b {
        lemma_set_linked_refl(set, (a, y));
    } else {
        let b1 = (b - 1) as i32;
        lemma_set_row(set, y, a, b1);
        assert(set.contains((b, y)));
        lemma_set_linked_extend(set, (a, y), (b1, y), (b, y));
    }
}

/// A run of a column inside `set` joins its two ends.
pub(crate) proof fn lemma_set_col(set: Set<Point>, x: i32, a: i32, b: i32)
    requires
        a <= b,
        forall|y: i32| a <= y <= b ==> #[trigger] set.contains((x, y)),
    ensures
        set_linked(set, (x, a), (x, b)),
    decreases b - a,
{
    if a == b {
        lemma_set_linked_refl(set, (x, a));
    } else {
        let b1 = (b - 1) as i32;
        lemma_set_col(set, x, a, b1);
        assert(set.contains((x, b)));
        lemma_set_linked_extend(set, (x, a), (x, b1), (x, b));
    }
}

/// A set whose every cell is joined to one hub cell is connected.
pub(crate) proof fn lemma_connected_via_hub(set: Set<Point>, hub: Point)
    requires
        forall|a: Point| #[trigger] set.contains(a) ==> set_linked(set, a, hub),
    ensures
        connected(set),
{
    assert forall|a: Point, b: Point| set.contains(a) && set.contains(b) implies exists|s: Seq<Point>| #[trigger] set_path(set, s) && s[0] == a && s.last() == b by {
        assert(set_linked(set, a, hub) && set_linked(set, b, hub));
        lemma_set_linked_symm(set, b, hub);
        lemma_set_linked_trans(set, a, hub, b);
    }
}

} // verus!
