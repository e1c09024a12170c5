//! The rectangular fallback ring passes the skeleton's acceptance checks:
//! one connected ring enclosing one hole, with border runs `4, 4, W, W`.

use vstd::prelude::*;
use crate::components::{component_firsts, enclosed, first_of_component, scan_before};
use crate::corridor::Corridor;
use crate::flood::{is_path, lemma_closed_holds_path_end, lemma_linked_extend, lemma_linked_refl, lemma_linked_symm, lemma_linked_trans, linked, member};
use crate::geom::{adjacent4, Point, Side};
use crate::points::{is_max_x, is_max_y, is_min_x, is_min_y};
use crate::topology::{
    connected, lemma_connected_via_hub, lemma_set_col, lemma_set_linked_symm, lemma_set_linked_trans, lemma_set_row,
    sealed_infield, set_linked,
};
use crate::skeleton::{
    cells_corridor, corridor_checks, group_range, group_wall, groups_runs, lemma_extremal_unique, line_runs,
    rect_hole, rect_ring, rect_width, ring_accepted, runs_from, wall_runs, within, MIN_RECT_H,
};

verus! {

broadcast use crate::corridor::Corridor::lemma_has_in_box;

/// The corridor over the `w × 4` rectangular ring, padded by one cell, has
/// the box `[-1, w] × [-1, 4]` and exactly the ring's cells.
proof fn lemma_rect_box(d: &Corridor, w: int)
    requires
        4 <= w <= 66,
        cells_corridor(d, rect_ring(w, 4), 1),
    ensures
        d.ox() == -1 && d.oy() == -1 && d.w() == w + 2 && d.h() == 6,
        forall|q: Point| #[trigger] d.has(q) == rect_ring(w, 4).contains(q),
{
    let r = rect_ring(w, 4);
    let o: Point = (0, 0);
    let far: Point = ((w - 1) as i32, 3);
    assert(r.contains(o) && r.contains(far));
    assert(is_min_x(r, 0) && is_min_y(r, 0) && is_max_x(r, w - 1) && is_max_y(r, 3));
    let (mx, bx, my, by) = choose|mx: int, bx: int, my: int, by: int|
        #![trigger is_min_x(r, mx), is_max_x(r, bx), is_min_y(r, my), is_max_y(r, by)]
        is_min_x(r, mx) && is_max_x(r, bx) && is_min_y(r, my) && is_max_y(r, by)
            && d.ox() == mx - 1 && d.oy() == my - 1 && d.ox() + d.w() == bx + 1 + 1 && d.oy() + d.h() == by + 1 + 1;
    lemma_extremal_unique(r, Side::West, mx, 0);
    lemma_extremal_unique(r, Side::East, bx, w - 1);
    lemma_extremal_unique(r, Side::South, my, 0);
    lemma_extremal_unique(r, Side::North, by, 3);
}

/// A straight row segment of class-`want` cells is linked end to end.
proof fn lemma_row_linked(d: &Corridor, want: bool, y: int, a: int, b: int)
    requires
        a <= b,
        -100 <= a && b <= 100 && -100 <= y <= 100,
        forall|x: int| a <= x <= b ==> #[trigger] member(d, want, (x as i32, y as i32)),
    ensures
        linked(d, want, (a as i32, y as i32), (b as i32, y as i32)),
    decreases b - a,
{
    if a == b {
        lemma_linked_refl(d, want, (a as i32, y as i32));
    } else {
        lemma_row_linked(d, want, y, a, b - 1);
        assert(member(d, want, (b as i32, y as i32)));
        assert(adjacent4(((b - 1) as i32, y as i32), (b as i32, y as i32)));
        lemma_linked_extend(d, want, (a as i32, y as i32), ((b - 1) as i32, y as i32), (b as i32, y as i32));
    }
}

/// A straight column segment of class-`want` cells is linked end to end.
proof fn lemma_col_linked(d: &Corridor, want: bool, x: int, a: int, b: int)
    requires
        a <= b,
        -100 <= a && b <= 100 && -100 <= x <= 100,
        forall|y: int| a <= y <= b ==> #[trigger] member(d, want, (x as i32, y as i32)),
    ensures
        linked(d, want, (x as i32, a as i32), (x as i32, b as i32)),
    decreases b - a,
{
    if a == b {
        lemma_linked_refl(d, want, (x as i32, a as i32));
    } else {
        lemma_col_linked(d, want, x, a, b - 1);
        assert(member(d, want, (x as i32, b as i32)));
        assert(adjacent4((x as i32, (b - 1) as i32), (x as i32, b as i32)));
        lemma_linked_extend(d, want, (x as i32, a as i32), (x as i32, (b - 1) as i32), (x as i32, b as i32));
    }
}

/// The ring is one component, represented by its corner `(0, 0)`.
proof fn lemma_rect_one_component(d: &Corridor, w: int)
    requires
        4 <= w <= 66,
        cells_corridor(d, rect_ring(w, 4), 1),
    ensures
        component_firsts(d, true, false) == set![(0i32, 0i32)],
{
    lemma_rect_box(d, w);
    let o: Point = (0, 0);
    assert forall|q: Point| member(d, true, q) implies linked(d, true, o, q) by {
        assert forall|x: int| 0 <= x <= w - 1 implies #[trigger] member(d, true, (x as i32, 0i32)) by {}
        assert forall|x: int| 0 <= x <= w - 1 implies #[trigger] member(d, true, (x as i32, 3i32)) by {}
        assert forall|y: int| 0 <= y <= 3 implies #[trigger] member(d, true, (0i32, y as i32)) by {}
        assert forall|y: int| 0 <= y <= 3 implies #[trigger] member(d, true, ((w - 1) as i32, y as i32)) by {}
        if q.1 == 0 {
            lemma_row_linked(d, true, 0, 0, q.0 as int);
        } else if q.0 == 0 {
            lemma_col_linked(d, true, 0, 0, q.1 as int);
        } else if q.0 == w - 1 {
            lemma_row_linked(d, true, 0, 0, w - 1);
            lemma_col_linked(d, true, w - 1, 0, q.1 as int);
            lemma_linked_trans(d, true, o, ((w - 1) as i32, 0i32), q);
        } else {
            assert(q.1 == 3);
            lemma_col_linked(d, true, 0, 0, 3);
            lemma_row_linked(d, true, 3, 0, q.0 as int);
            lemma_linked_trans(d, true, o, (0i32, 3i32), q);
        }
    }
    assert forall|q: Point| #[trigger] component_firsts(d, true, false).contains(q) == (q == o) by {
        if q == o {
            assert forall|r: Point| #[trigger] linked(d, true, o, r) implies !scan_before(r, o) by {
                crate::components::lemma_linked_members(d, true, o, r);
            }
        } else if member(d, true, q) {
            assert(linked(d, true, o, q));
            lemma_linked_symm(d, true, o, q);
            assert(scan_before(o, q));
        }
    }
    assert(component_firsts(d, true, false) =~= set![(0i32, 0i32)]);
}

/// The interior of the `w × 4` rectangle.
spec fn interior(w: int) -> Set<Point> {
    Set::new(|q: Point| 1 <= q.0 <= w - 2 && 1 <= q.1 <= 2)
}

/// The ring encloses exactly one hole, represented by `(1, 1)`.
proof fn lemma_rect_one_hole(d: &Corridor, w: int)
    requires
        4 <= w <= 66,
        cells_corridor(d, rect_ring(w, 4), 1),
    ensures
        component_firsts(d, false, true) == set![(1i32, 1i32)],
{
    lemma_rect_box(d, w);
    let c: Point = (1, 1);
    let inner = interior(w);
    assert forall|x: Point, n: Point| inner.contains(x) && member(d, false, n) && #[trigger] adjacent4(x, n) implies #[trigger] inner.contains(n) by {}
    assert forall|r: Point| #[trigger] linked(d, false, c, r) implies inner.contains(r) by {
        let s = choose|s: Seq<Point>| #[trigger] is_path(d, false, s) && s[0] == c && s.last() == r;
        lemma_closed_holds_path_end(d, false, s, inner);
    }
    assert forall|q: Point| inner.contains(q) implies linked(d, false, c, q) by {
        assert forall|x: int| 1 <= x <= w - 2 implies #[trigger] member(d, false, (x as i32, 1i32)) by {}
        assert forall|y: int| 1 <= y <= 2 implies #[trigger] member(d, false, (q.0, y as i32)) by {}
        lemma_row_linked(d, false, 1, 1, q.0 as int);
        if q.1 == 2 {
            lemma_col_linked(d, false, q.0 as int, 1, 2);
            lemma_linked_trans(d, false, c, (q.0, 1i32), q);
        }
    }
    assert forall|q: Point| #[trigger] component_firsts(d, false, true).contains(q) == (q == c) by {
        if q == c {
            assert forall|r: Point| #[trigger] linked(d, false, c, r) implies !scan_before(r, c) && !d.on_border(r) by {
                assert(inner.contains(r));
            }
            assert(first_of_component(d, false, c));
            assert(enclosed(d, false, c));
        } else if member(d, false, q) {
            if inner.contains(q) {
                assert(linked(d, false, c, q));
                lemma_linked_symm(d, false, c, q);
                assert(scan_before(c, q));
            } else {
                assert(d.on_border(q));
                lemma_linked_refl(d, false, q);
                assert(!enclosed(d, false, q));
            }
        }
    }
    assert(component_firsts(d, false, true) =~= set![(1i32, 1i32)]);
}

proof fn lemma_runs_none(d: &Corridor, horiz: bool, fixed: int, v: int, hi: int)
    requires
        forall|u: int| v <= u < hi ==> !#[trigger] group_wall(d, horiz, fixed, u),
    ensures
        runs_from(d, horiz, fixed, v, hi, 0) == Seq::<int>::empty(),
    decreases hi - v,
{
    if v < hi {
        lemma_runs_none(d, horiz, fixed, v + 1, hi);
    }
}

proof fn lemma_runs_block(d: &Corridor, horiz: bool, fixed: int, v: int, b: int, hi: int, cur: int)
    requires
        v <= b <= hi,
        cur >= 0,
        cur + (b - v) > 0,
        forall|u: int| v <= u < b ==> #[trigger] group_wall(d, horiz, fixed, u),
        forall|u: int| b <= u < hi ==> !#[trigger] group_wall(d, horiz, fixed, u),
    ensures
        runs_from(d, horiz, fixed, v, hi, cur) == seq![cur + (b - v)],
    decreases hi - v,
{
    if v < b {
        lemma_runs_block(d, horiz, fixed, v + 1, b, hi, cur + 1);
    } else if v < hi {
        lemma_runs_none(d, horiz, fixed, v + 1, hi);
        assert(seq![cur] + Seq::<int>::empty() =~= seq![cur]);
    }
}

proof fn lemma_groups_split(d: &Corridor, horiz: bool, a: int, b: int, c: int)
    requires
        a <= b <= c,
    ensures
        groups_runs(d, horiz, a, c) == groups_runs(d, horiz, a, b) + groups_runs(d, horiz, b, c),
    decreases c - b,
{
    if c == b {
        assert(groups_runs(d, horiz, a, b) + Seq::<int>::empty() =~= groups_runs(d, horiz, a, b));
    } else {
        lemma_groups_split(d, horiz, a, b, c - 1);
        assert(groups_runs(d, horiz, a, b) + groups_runs(d, horiz, b, c - 1) + line_runs(d, horiz, c - 1)
            =~= groups_runs(d, horiz, a, b) + (groups_runs(d, horiz, b, c - 1) + line_runs(d, horiz, c - 1)));
    }
}

proof fn lemma_groups_empty(d: &Corridor, horiz: bool, a: int, b: int)
    requires
        forall|f: int| a <= f < b ==> #[trigger] line_runs(d, horiz, f) == Seq::<int>::empty(),
    ensures
        groups_runs(d, horiz, a, b) == Seq::<int>::empty(),
    decreases b - a,
{
    if b > a {
        lemma_groups_empty(d, horiz, a, b - 1);
        assert(line_runs(d, horiz, b - 1) == Seq::<int>::empty());
        assert(Seq::<int>::empty() + Seq::<int>::empty() =~= Seq::<int>::empty());
    }
}

proof fn lemma_groups_one(d: &Corridor, horiz: bool, f: int, s: Seq<int>)
    requires
        line_runs(d, horiz, f) == s,
    ensures
        groups_runs(d, horiz, f, f + 1) == s,
{
    assert(groups_runs(d, horiz, f, f) == Seq::<int>::empty());
    assert(Seq::<int>::empty() + s =~= s);
}

/// The ring's border runs are `4, 4` (its two sides) then `w, w` (its top
/// and bottom).
proof fn lemma_rect_runs(d: &Corridor, w: int)
    requires
        4 <= w <= 66,
        cells_corridor(d, rect_ring(w, 4), 1),
    ensures
        wall_runs(d) == seq![4int, 4, w, w],
{
    lemma_rect_box(d, w);
    assert(group_range(d, false) == (-1int, 5int));
    assert(group_range(d, true) == (-1int, w + 1));
    // vertical walls: the two sides
    assert forall|f: int| (-1 <= f < 0 || 1 <= f < w - 1 || w <= f < w + 1) implies #[trigger] line_runs(d, false, f) == Seq::<int>::empty() by {
        assert forall|u: int| -1 <= u < 5 implies !#[trigger] group_wall(d, false, f, u) by {}
        lemma_runs_none(d, false, f, -1, 5);
    }
    assert forall|f: int| (f == 0 || f == w - 1) implies #[trigger] line_runs(d, false, f) == seq![4int] by {
        assert(!group_wall(d, false, f, -1));
        assert forall|u: int| 0 <= u < 4 implies #[trigger] group_wall(d, false, f, u) by {}
        assert forall|u: int| 4 <= u < 5 implies !#[trigger] group_wall(d, false, f, u) by {}
        lemma_runs_block(d, false, f, 0, 4, 5, 0);
    }
    lemma_groups_empty(d, false, -1, 0);
    lemma_groups_one(d, false, 0, seq![4int]);
    lemma_groups_empty(d, false, 1, w - 1);
    lemma_groups_one(d, false, w - 1, seq![4int]);
    lemma_groups_empty(d, false, w, w + 1);
    lemma_groups_split(d, false, -1, 0, 1);
    lemma_groups_split(d, false, -1, 1, w - 1);
    lemma_groups_split(d, false, -1, w - 1, w);
    lemma_groups_split(d, false, -1, w, w + 1);
    assert(groups_runs(d, false, -1, w + 1) =~= seq![4int, 4]);
    // horizontal walls: the bottom and the top
    assert forall|f: int| (-1 <= f < 0 || 1 <= f < 3 || 4 <= f < 5) implies #[trigger] line_runs(d, true, f) == Seq::<int>::empty() by {
        assert forall|u: int| -1 <= u < w + 1 implies !#[trigger] group_wall(d, true, f, u) by {}
        lemma_runs_none(d, true, f, -1, w + 1);
    }
    assert forall|f: int| (f == 0 || f == 3) implies #[trigger] line_runs(d, true, f) == seq![w] by {
        assert(!group_wall(d, true, f, -1));
        assert forall|u: int| 0 <= u < w implies #[trigger] group_wall(d, true, f, u) by {}
        assert forall|u: int| w <= u < w + 1 implies !#[trigger] group_wall(d, true, f, u) by {}
        lemma_runs_block(d, true, f, 0, w, w + 1, 0);
    }
    lemma_groups_empty(d, true, -1, 0);
    lemma_groups_one(d, true, 0, seq![w]);
    lemma_groups_empty(d, true, 1, 3);
    lemma_groups_one(d, true, 3, seq![w]);
    lemma_groups_empty(d, true, 4, 5);
    lemma_groups_split(d, true, -1, 0, 1);
    lemma_groups_split(d, true, -1, 1, 3);
    lemma_groups_split(d, true, -1, 3, 4);
    lemma_groups_split(d, true, -1, 4, 5);
    assert(groups_runs(d, true, -1, 5) =~= seq![w, w]);
    assert(wall_runs(d) =~= seq![4int, 4, w, w]);
}

/// The rectangular fallback ring always passes the skeleton's acceptance
/// checks: it is one 4-connected loop enclosing exactly one hole, its
/// border runs are `4, 4, W, W` — all at least 2 — and its long sides are
/// at least `l_eff`.
pub proof fn lemma_fallback_accepted(l_eff: int)
    requires
        2 <= l_eff <= 64,
    ensures
        ring_accepted(rect_ring(rect_width(l_eff), MIN_RECT_H as int), l_eff),
{
    reveal(ring_accepted);
    let w = rect_width(l_eff);
    assert forall|d: Corridor| #[trigger] cells_corridor(&d, rect_ring(w, MIN_RECT_H as int), 1) implies corridor_checks(&d, l_eff) by {
        lemma_rect_one_component(&d, w);
        lemma_rect_one_hole(&d, w);
        lemma_rect_runs(&d, w);
        assert(set![(0i32, 0i32)].len() == 1);
        assert(set![(1i32, 1i32)].len() == 1);
        let wr = wall_runs(&d);
        assert(wr[2] == w && w >= l_eff);
    }
}

/// The rectangular ring is connected: every cell walks along the border to
/// the corner `(0, 0)`.
proof fn lemma_rect_ring_connected(w: int)
    requires
        4 <= w <= 66,
    ensures
        connected(rect_ring(w, 4)),
{
    let r = rect_ring(w, 4);
    let o: Point = (0, 0);
    let wm = (w - 1) as i32;
    assert forall|a: Point| #[trigger] r.contains(a) implies set_linked(r, a, o) by {
        if a.1 == 0 {
            lemma_set_row(r, 0, 0, a.0);
            lemma_set_linked_symm(r, o, a);
        } else if a.0 == 0 {
            lemma_set_col(r, 0, 0, a.1);
            lemma_set_linked_symm(r, o, a);
        } else if a.1 == 3 {
            lemma_set_col(r, 0, 0, 3);
            lemma_set_row(r, 3, 0, a.0);
            lemma_set_linked_trans(r, o, (0, 3), a);
            lemma_set_linked_symm(r, o, a);
        } else {
            assert(a.0 == wm);
            lemma_set_row(r, 0, 0, wm);
            lemma_set_col(r, wm, 0, a.1);
            lemma_set_linked_trans(r, o, (wm, 0), a);
            lemma_set_linked_symm(r, o, a);
        }
    }
    lemma_connected_via_hub(r, o);
}

/// The rectangle's interior is connected: every cell walks to `(1, 1)`.
proof fn lemma_rect_hole_connected(w: int)
    requires
        4 <= w <= 66,
    ensures
        connected(rect_hole(w, 4)),
{
    let h = rect_hole(w, 4);
    let o: Point = (1, 1);
    assert forall|a: Point| #[trigger] h.contains(a) implies set_linked(h, a, o) by {
        lemma_set_row(h, 1, 1, a.0);
        lemma_set_col(h, a.0, 1, a.1);
        lemma_set_linked_trans(h, o, (a.0, 1), a);
        lemma_set_linked_symm(h, o, a);
    }
    lemma_connected_via_hub(h, o);
}

/// The rectangular ring seals its interior: both connected, disjoint, the
/// interior non-empty and strictly inside the ring's box, and every
/// 4-neighbor of an interior cell in the interior or the ring.
pub proof fn lemma_rect_sealed(w: int)
    requires
        4 <= w <= 66,
    ensures
        sealed_infield(rect_ring(w, 4), rect_hole(w, 4)),
{
    reveal(sealed_infield);
    let r = rect_ring(w, 4);
    let h = rect_hole(w, 4);
    lemma_rect_ring_connected(w);
    lemma_rect_hole_connected(w);
    assert(h.contains((1i32, 1i32)));
    assert forall|c: Point| #[trigger] h.contains(c) implies {
        &&& exists|p: Point| r.contains(p) && p.0 < c.0
        &&& exists|p: Point| r.contains(p) && p.0 > c.0
        &&& exists|p: Point| r.contains(p) && p.1 < c.1
        &&& exists|p: Point| r.contains(p) && p.1 > c.1
    } by {
        assert(r.contains((0i32, c.1)));
        assert(r.contains(((w - 1) as i32, c.1)));
        assert(r.contains((c.0, 0i32)));
        assert(r.contains((c.0, 3i32)));
    }
    assert(r.disjoint(h));
}

/// Everything the skeleton states of the rectangular fallback: accepted,
/// sealing its interior, disjoint from it, and small.
pub proof fn lemma_fallback_built(l_eff: int)
    requires
        2 <= l_eff <= 64,
    ensures
        ring_accepted(rect_ring(rect_width(l_eff), MIN_RECT_H as int), l_eff),
        sealed_infield(rect_ring(rect_width(l_eff), MIN_RECT_H as int), rect_hole(rect_width(l_eff), MIN_RECT_H as int)),
        rect_ring(rect_width(l_eff), MIN_RECT_H as int).disjoint(rect_hole(rect_width(l_eff), MIN_RECT_H as int)),
        within(rect_ring(rect_width(l_eff), MIN_RECT_H as int), 80),
        within(rect_hole(rect_width(l_eff), MIN_RECT_H as int), 80),
{
    lemma_fallback_accepted(l_eff);
    lemma_rect_sealed(rect_width(l_eff));
}

} // verus!
