//! Widening is outward: it keeps every cell of the ring and never reaches
//! a cell strictly inside the ring's bounding box, so the infield a ring
//! was built around stays untouched.

use vstd::prelude::*;
use crate::geom::{step_point, Point, Side};
use crate::points::{is_max_x, is_max_y, is_min_x, is_min_y};
use crate::skeleton::{dilation, extremal, moore_near, on_extremal, ring_around, shifted, widen_side, widened, within, WIDEN_MAX};

verus! {

/// Every cell of `h` lies strictly inside `s`'s bounding box: `s` has cells
/// beyond it on all four sides.
pub open spec fn strictly_inside(h: Set<Point>, s: Set<Point>) -> bool {
    forall|c: Point| #[trigger] h.contains(c) ==> {
        &&& exists|p: Point| s.contains(p) && p.0 < c.0
        &&& exists|p: Point| s.contains(p) && p.0 > c.0
        &&& exists|p: Point| s.contains(p) && p.1 < c.1
        &&& exists|p: Point| s.contains(p) && p.1 > c.1
    }
}

/// A finite non-empty set of points has an extremal coordinate on every
/// side.
proof fn lemma_extremal_exists(s: Set<Point>, side: Side)
    requires
        s.finite(),
        !s.is_empty(),
    ensures
        exists|v: int| extremal(s, side, v),
    decreases s.len(),
{
    let p = s.choose();
    assert(s.contains(p));
    let t = s.remove(p);
    let pv: int = match side {
        Side::East | Side::West => p.0 as int,
        Side::North | Side::South => p.1 as int,
    };
    if t.is_empty() {
        assert forall|q: Point| s.contains(q) implies q == p by {
            if q != p {
                assert(t.contains(q));
            }
        }
        assert(extremal(s, side, pv));
    } else {
        assert(t.len() < s.len());
        lemma_extremal_exists(t, side);
        let tv = choose|v: int| extremal(t, side, v);
        match side {
            Side::East => {
                let w = choose|q: Point| t.contains(q) && q.0 == tv;
                if pv >= tv {
                    assert(is_max_x(s, pv));
                    assert(extremal(s, side, pv));
                } else {
                    assert(s.contains(w));
                    assert(is_max_x(s, tv));
                    assert(extremal(s, side, tv));
                }
            },
            Side::West => {
                let w = choose|q: Point| t.contains(q) && q.0 == tv;
                if pv <= tv {
                    assert(is_min_x(s, pv));
                    assert(extremal(s, side, pv));
                } else {
                    assert(s.contains(w));
                    assert(is_min_x(s, tv));
                    assert(extremal(s, side, tv));
                }
            },
            Side::North => {
                let w = choose|q: Point| t.contains(q) && q.1 == tv;
                if pv >= tv {
                    assert(is_max_y(s, pv));
                    assert(extremal(s, side, pv));
                } else {
                    assert(s.contains(w));
                    assert(is_max_y(s, tv));
                    assert(extremal(s, side, tv));
                }
            },
            Side::South => {
                let w = choose|q: Point| t.contains(q) && q.1 == tv;
                if pv <= tv {
                    assert(is_min_y(s, pv));
                    assert(extremal(s, side, pv));
                } else {
                    assert(s.contains(w));
                    assert(is_min_y(s, tv));
                    assert(extremal(s, side, tv));
                }
            },
        }
    }
}

/// The cells of `ring` moved `layer` steps outward across `side`.
spec fn layer_image(ring: Set<Point>, side: Side, layer: int) -> Set<Point> {
    ring.map(|p: Point| shifted(p, side, layer))
}

/// Widening one side keeps the ring, stays finite, and adds no cell of a
/// set strictly inside the ring's box.
proof fn lemma_widen_side_outward(ring: Set<Point>, side: Side, amount: int, h: Set<Point>)
    requires
        ring.finite(),
        0 <= amount <= WIDEN_MAX,
        strictly_inside(h, ring),
    ensures
        ring.subset_of(widen_side(ring, side, amount)),
        widen_side(ring, side, amount).finite(),
        strictly_inside(h, widen_side(ring, side, amount)),
        forall|c: Point| #[trigger] h.contains(c) ==> (widen_side(ring, side, amount).contains(c) == ring.contains(c)),
{
    let w = widen_side(ring, side, amount);
    if amount == 0 || ring.is_empty() {
        return;
    }
    lemma_extremal_exists(ring, side);
    let v = choose|v: int| extremal(ring, side, v);
    let added = Set::new(|q: Point| exists|p: Point, l: int| #![trigger shifted(p, side, l)] ring.contains(p) && on_extremal(side, v, p) && 1 <= l <= amount && q == shifted(p, side, l));
    assert(w == ring.union(added));
    let images = layer_image(ring, side, 1).union(layer_image(ring, side, 2)).union(layer_image(ring, side, 3));
    assert(images.finite()) by {
        ring.lemma_map_finite(|p: Point| shifted(p, side, 1));
        ring.lemma_map_finite(|p: Point| shifted(p, side, 2));
        ring.lemma_map_finite(|p: Point| shifted(p, side, 3));
    }
    assert(added.subset_of(images)) by {
        assert forall|q: Point| added.contains(q) implies images.contains(q) by {
            let (p, l) = choose|p: Point, l: int| #![trigger shifted(p, side, l)] ring.contains(p) && on_extremal(side, v, p) && 1 <= l <= amount && q == shifted(p, side, l);
            if l == 1 {
                assert(layer_image(ring, side, 1).contains(q));
            } else if l == 2 {
                assert(layer_image(ring, side, 2).contains(q));
            } else {
                assert(layer_image(ring, side, 3).contains(q));
            }
        }
    }
    vstd::set_lib::lemma_set_subset_finite(images, added);
    assert forall|c: Point| #[trigger] h.contains(c) implies !added.contains(c) by {
        if added.contains(c) {
            let (p, l) = choose|p: Point, l: int| #![trigger shifted(p, side, l)] ring.contains(p) && on_extremal(side, v, p) && 1 <= l <= amount && c == shifted(p, side, l);
            match side {
                Side::East => {
                    let p2 = choose|p2: Point| ring.contains(p2) && p2.0 > c.0;
                    assert(c.0 >= v);
                },
                Side::West => {
                    let p2 = choose|p2: Point| ring.contains(p2) && p2.0 < c.0;
                    assert(c.0 <= v);
                },
                Side::North => {
                    let p2 = choose|p2: Point| ring.contains(p2) && p2.1 > c.1;
                    assert(c.1 >= v);
                },
                Side::South => {
                    let p2 = choose|p2: Point| ring.contains(p2) && p2.1 < c.1;
                    assert(c.1 <= v);
                },
            }
        }
    }
    assert forall|c: Point| #[trigger] h.contains(c) implies {
        &&& exists|p: Point| w.contains(p) && p.0 < c.0
        &&& exists|p: Point| w.contains(p) && p.0 > c.0
        &&& exists|p: Point| w.contains(p) && p.1 < c.1
        &&& exists|p: Point| w.contains(p) && p.1 > c.1
    } by {
        let a = choose|p: Point| ring.contains(p) && p.0 < c.0;
        let b = choose|p: Point| ring.contains(p) && p.0 > c.0;
        let e = choose|p: Point| ring.contains(p) && p.1 < c.1;
        let f = choose|p: Point| ring.contains(p) && p.1 > c.1;
        assert(w.contains(a) && w.contains(b) && w.contains(e) && w.contains(f));
    }
}

/// Widening is outward: the widened ring keeps every cell of `ring` and
/// holds a cell of a set strictly inside `ring`'s bounding box exactly when
/// `ring` already did.
pub proof fn lemma_widened_outward(ring: Set<Point>, amounts: Seq<u32>, h: Set<Point>)
    requires
        ring.finite(),
        amounts.len() == 4,
        forall|i: int| 0 <= i < 4 ==> amounts[i] <= WIDEN_MAX,
        strictly_inside(h, ring),
    ensures
        ring.subset_of(widened(ring, amounts)),
        forall|c: Point| #[trigger] h.contains(c) ==> (widened(ring, amounts).contains(c) == ring.contains(c)),
{
    reveal(widened);
    let r1 = widen_side(ring, Side::East, amounts[0] as int);
    lemma_widen_side_outward(ring, Side::East, amounts[0] as int, h);
    let r2 = widen_side(r1, Side::West, amounts[1] as int);
    lemma_widen_side_outward(r1, Side::West, amounts[1] as int, h);
    let r3 = widen_side(r2, Side::North, amounts[2] as int);
    lemma_widen_side_outward(r2, Side::North, amounts[2] as int, h);
    lemma_widen_side_outward(r3, Side::South, amounts[3] as int, h);
}

/// The cells of `p` moved by `(dx, dy)`, saturating.
spec fn offset_image(p: Set<Point>, dx: int, dy: int) -> Set<Point> {
    p.map(|c: Point| step_point(c, dx, dy))
}

/// The nine offsets of a finite set are finite, and so is their union.
proof fn lemma_offset_finite(p: Set<Point>, dx: int, dy: int)
    requires
        p.finite(),
    ensures
        offset_image(p, dx, dy).finite(),
{
    p.lemma_map_finite(|c: Point| step_point(c, dx, dy));
}

/// The ring around a finite set is finite.
proof fn lemma_ring_around_finite(p: Set<Point>)
    requires
        p.finite(),
    ensures
        ring_around(p).finite(),
{
    let u = offset_image(p, -1, -1).union(offset_image(p, -1, 0)).union(offset_image(p, -1, 1))
        .union(offset_image(p, 0, -1)).union(offset_image(p, 0, 0)).union(offset_image(p, 0, 1))
        .union(offset_image(p, 1, -1)).union(offset_image(p, 1, 0)).union(offset_image(p, 1, 1));
    assert(u.finite()) by {
        lemma_offset_finite(p, -1, -1);
        lemma_offset_finite(p, -1, 0);
        lemma_offset_finite(p, -1, 1);
        lemma_offset_finite(p, 0, -1);
        lemma_offset_finite(p, 0, 0);
        lemma_offset_finite(p, 0, 1);
        lemma_offset_finite(p, 1, -1);
        lemma_offset_finite(p, 1, 0);
        lemma_offset_finite(p, 1, 1);
    }
    assert forall|q: Point| dilation(p).contains(q) implies u.contains(q) by {
        let c = choose|c: Point| p.contains(c) && #[trigger] moore_near(c, q);
        let dx: int = if q.0 == c.0 { 0 } else if q.0 as int == crate::geom::sat(c.0 - 1) { -1 } else { 1 };
        let dy: int = if q.1 == c.1 { 0 } else if q.1 as int == crate::geom::sat(c.1 - 1) { -1 } else { 1 };
        assert(q == step_point(c, dx, dy));
        assert(offset_image(p, dx, dy).contains(q));
    }
    vstd::set_lib::lemma_set_subset_finite(u, dilation(p));
}

/// A set within the domain lies strictly inside the ring around it, which
/// is finite and disjoint from it.
pub proof fn lemma_ring_encloses(p: Set<Point>)
    requires
        p.finite(),
        within(p, 1000),
    ensures
        ring_around(p).finite(),
        strictly_inside(p, ring_around(p)),
        ring_around(p).disjoint(p),
{
    lemma_ring_around_finite(p);
    let r = ring_around(p);
    assert forall|c: Point| #[trigger] p.contains(c) implies {
        &&& exists|q: Point| r.contains(q) && q.0 < c.0
        &&& exists|q: Point| r.contains(q) && q.0 > c.0
        &&& exists|q: Point| r.contains(q) && q.1 < c.1
        &&& exists|q: Point| r.contains(q) && q.1 > c.1
    } by {
        lemma_extremal_exists(p, Side::West);
        lemma_extremal_exists(p, Side::East);
        lemma_extremal_exists(p, Side::South);
        lemma_extremal_exists(p, Side::North);
        let mx = choose|v: int| extremal(p, Side::West, v);
        let bx = choose|v: int| extremal(p, Side::East, v);
        let my = choose|v: int| extremal(p, Side::South, v);
        let by = choose|v: int| extremal(p, Side::North, v);
        let a = choose|q: Point| p.contains(q) && q.0 == mx;
        let b = choose|q: Point| p.contains(q) && q.0 == bx;
        let e = choose|q: Point| p.contains(q) && q.1 == my;
        let f = choose|q: Point| p.contains(q) && q.1 == by;
        let a2: Point = ((a.0 - 1) as i32, a.1);
        let b2: Point = ((b.0 + 1) as i32, b.1);
        let e2: Point = (e.0, (e.1 - 1) as i32);
        let f2: Point = (f.0, (f.1 + 1) as i32);
        assert(moore_near(a, a2) && moore_near(b, b2) && moore_near(e, e2) && moore_near(f, f2));
        assert(r.contains(a2) && r.contains(b2) && r.contains(e2) && r.contains(f2));
    }
}

/// A set strictly inside `s` stays strictly inside any superset of `s`.
pub proof fn lemma_inside_grows(h: Set<Point>, s: Set<Point>, t: Set<Point>)
    requires
        strictly_inside(h, s),
        s.subset_of(t),
    ensures
        strictly_inside(h, t),
{
    assert forall|c: Point| #[trigger] h.contains(c) implies {
        &&& exists|p: Point| t.contains(p) && p.0 < c.0
        &&& exists|p: Point| t.contains(p) && p.0 > c.0
        &&& exists|p: Point| t.contains(p) && p.1 < c.1
        &&& exists|p: Point| t.contains(p) && p.1 > c.1
    } by {
        let a = choose|p: Point| s.contains(p) && p.0 < c.0;
        let b = choose|p: Point| s.contains(p) && p.0 > c.0;
        let e = choose|p: Point| s.contains(p) && p.1 < c.1;
        let f = choose|p: Point| s.contains(p) && p.1 > c.1;
        assert(t.contains(a) && t.contains(b) && t.contains(e) && t.contains(f));
    }
}

} // verus!
