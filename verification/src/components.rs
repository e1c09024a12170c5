//! Counting the 4-connected components of a corridor's drivable cells, or of
//! the bounded components of its complement.

use vstd::prelude::*;
use crate::corridor::Corridor;
use crate::flood::{flood, is_path, lemma_linked_refl, lemma_linked_symm, lemma_linked_trans, linked, member};
use crate::geom::Point;
use crate::raster::box_small;

verus! {

broadcast use crate::corridor::Corridor::lemma_has_in_box;

/// `p` comes strictly before `q` in row-major scan order (rows by `y`,
/// then columns by `x`).
pub open spec fn scan_before(p: Point, q: Point) -> bool {
    p.1 < q.1 || (p.1 == q.1 && p.0 < q.0)
}

/// `q` is the first cell, in row-major order, of its component of class
/// `want`.
pub open spec fn first_of_component(d: &Corridor, want: bool, q: Point) -> bool {
    member(d, want, q) && forall|r: Point| #[trigger] linked(d, want, q, r) ==> !scan_before(r, q)
}

/// `q`'s component of class `want` stays off the box border. For the
/// non-drivable class this is exactly a bounded component of the
/// complement: every cell outside the box is non-drivable, so a component
/// reaching the border continues to infinity.
pub open spec fn enclosed(d: &Corridor, want: bool, q: Point) -> bool {
    member(d, want, q) && forall|r: Point| #[trigger] linked(d, want, q, r) ==> !d.on_border(r)
}

/// One representative (its first cell) per component of class `want`,
/// keeping only the enclosed components when `bounded_only`.
pub open spec fn component_firsts(d: &Corridor, want: bool, bounded_only: bool) -> Set<Point> {
    Set::new(|q: Point| first_of_component(d, want, q) && (bounded_only ==> enclosed(d, want, q)))
}

/// Corridors over the same box with the same drivable cells link the same
/// cells.
proof fn lemma_linked_by_cells(d1: &Corridor, d2: &Corridor, want: bool, q: Point, r: Point)
    requires
        d1.same_box(d2),
        forall|x: Point| #[trigger] d1.has(x) == d2.has(x),
    ensures
        linked(d1, want, q, r) == linked(d2, want, q, r),
{
    if linked(d1, want, q, r) {
        let s = choose|s: Seq<Point>| #[trigger] is_path(d1, want, s) && s[0] == q && s.last() == r;
        assert forall|i: int| 0 <= i < s.len() implies member(d2, want, #[trigger] s[i]) by {
            assert(member(d1, want, s[i]));
        }
        assert(is_path(d2, want, s));
    }
    if linked(d2, want, q, r) {
        let s = choose|s: Seq<Point>| #[trigger] is_path(d2, want, s) && s[0] == q && s.last() == r;
        assert forall|i: int| 0 <= i < s.len() implies member(d1, want, #[trigger] s[i]) by {
            assert(member(d2, want, s[i]));
        }
        assert(is_path(d1, want, s));
    }
}

/// Corridors over the same box with the same drivable cells have the same
/// components.
pub proof fn lemma_components_by_cells(d1: &Corridor, d2: &Corridor, want: bool, bounded_only: bool)
    requires
        d1.same_box(d2),
        forall|x: Point| #[trigger] d1.has(x) == d2.has(x),
    ensures
        component_firsts(d1, want, bounded_only) == component_firsts(d2, want, bounded_only),
{
    assert forall|q: Point| #[trigger] component_firsts(d1, want, bounded_only).contains(q) == component_firsts(
        d2,
        want,
        bounded_only,
    ).contains(q) by {
        if first_of_component(d1, want, q) {
            assert forall|r: Point| #[trigger] linked(d2, want, q, r) implies !scan_before(r, q) by {
                lemma_linked_by_cells(d1, d2, want, q, r);
            }
        }
        if first_of_component(d2, want, q) {
            assert forall|r: Point| #[trigger] linked(d1, want, q, r) implies !scan_before(r, q) by {
                lemma_linked_by_cells(d1, d2, want, q, r);
            }
        }
        if enclosed(d1, want, q) {
            assert forall|r: Point| #[trigger] linked(d2, want, q, r) implies !d2.on_border(r) by {
                lemma_linked_by_cells(d1, d2, want, q, r);
            }
        }
        if enclosed(d2, want, q) {
            assert forall|r: Point| #[trigger] linked(d1, want, q, r) implies !d1.on_border(r) by {
                lemma_linked_by_cells(d1, d2, want, q, r);
            }
        }
    }
    assert(component_firsts(d1, want, bounded_only) =~= component_firsts(d2, want, bounded_only));
}

/// The box's cells number at most `usize::MAX`.
pub open spec fn cells_fit(d: &Corridor) -> bool {
    d.w() * d.h() <= usize::MAX
}

/// Both ends of a path lie in the class.
pub proof fn lemma_linked_members(d: &Corridor, want: bool, p: Point, q: Point)
    requires
        linked(d, want, p, q),
    ensures
        member(d, want, p),
        member(d, want, q),
{
    let s = choose|s: Seq<Point>| #[trigger] is_path(d, want, s) && s[0] == p && s.last() == q;
    assert(member(d, want, s[0]));
    assert(member(d, want, s[s.len() - 1]));
}

/// Cell `s` was visited before the scan cursor `(bx, by)` (box-relative).
pub open spec fn scanned(d: &Corridor, by: int, bx: int, s: Point) -> bool {
    d.in_box(s) && (s.1 - d.oy() < by || (s.1 - d.oy() == by && s.0 - d.ox() < bx))
}

/// Whether some cell of `comp` lies on `d`'s box border.
fn reaches_border(d: &Corridor, comp: &Vec<Point>) -> (r: bool)
    requires
        d.wf(),
    ensures
        r == exists|i: int| 0 <= i < comp@.len() && d.on_border(#[trigger] comp@[i]),
{
    let origin = d.origin();
    let x1: i64 = origin.0 as i64 + d.width() as i64;
    let y1: i64 = origin.1 as i64 + d.height() as i64;
    let mut border = false;
    let mut i: usize = 0;
    while i < comp.len()
        invariant
            d.wf(),
            origin.0 == d.ox() && origin.1 == d.oy(),
            x1 == d.ox() + d.w() && y1 == d.oy() + d.h(),
            i <= comp@.len(),
            border == exists|j: int| 0 <= j < i && d.on_border(#[trigger] comp@[j]),
        decreases comp@.len() - i,
    {
        let p = comp[i];
        let on_b = d.box_contains(p) && (p.0 == origin.0 || p.1 == origin.1 || p.0 as i64 + 1 == x1
            || p.1 as i64 + 1 == y1);
        if on_b {
            border = true;
        }
        proof {
            assert(on_b == d.on_border(comp@[i as int]));
        }
        i = i + 1;
    }
    border
}

/// The number of 4-connected components of `d`'s cells of class `want`
/// (drivable for `true`, non-drivable box cells for `false`); with
/// `bounded_only`, only the components that stay off the box border count.
pub fn count_components(d: &Corridor, want: bool, bounded_only: bool) -> (n: usize)
    requires
        d.wf(),
        box_small(d),
        cells_fit(d),
    ensures
        n == component_firsts(d, want, bounded_only).len(),
{
    let origin = d.origin();
    let w = d.width();
    let hh = d.height();
    let mut marks = Corridor::new(origin, w, hh);
    let mut count: usize = 0;
    let ghost mut reps: Set<Point> = Set::empty();
    let mut by: usize = 0;
    while by < hh
        invariant
            d.wf(),
            box_small(d),
            cells_fit(d),
            origin.0 == d.ox() && origin.1 == d.oy() && w == d.w() && hh == d.h(),
            marks.wf(),
            marks.same_box(d),
            by <= hh,
            forall|p: Point| #[trigger] marks.has(p) ==> member(d, want, p),
            forall|p: Point, q: Point| #[trigger] marks.has(p) && #[trigger] linked(d, want, p, q) ==> marks.has(q),
            forall|q: Point| member(d, want, q) && scanned(d, by as int, 0, q) ==> #[trigger] marks.has(q),
            forall|q: Point| #[trigger] marks.has(q) ==> exists|s: Point| scanned(d, by as int, 0, s) && #[trigger] linked(d, want, s, q),
            reps.finite(),
            reps == Set::new(|q: Point| first_of_component(d, want, q) && (bounded_only ==> enclosed(d, want, q)) && scanned(d, by as int, 0, q)),
            count == reps.len(),
            count <= by * w,
        decreases hh - by,
    {
        let mut bx: usize = 0;
        while bx < w
            invariant
                d.wf(),
                box_small(d),
                cells_fit(d),
                origin.0 == d.ox() && origin.1 == d.oy() && w == d.w() && hh == d.h(),
                marks.wf(),
                marks.same_box(d),
                by < hh,
                bx <= w,
                forall|p: Point| #[trigger] marks.has(p) ==> member(d, want, p),
                forall|p: Point, q: Point| #[trigger] marks.has(p) && #[trigger] linked(d, want, p, q) ==> marks.has(q),
                forall|q: Point| member(d, want, q) && scanned(d, by as int, bx as int, q) ==> #[trigger] marks.has(q),
                forall|q: Point| #[trigger] marks.has(q) ==> exists|s: Point| scanned(d, by as int, bx as int, s) && #[trigger] linked(d, want, s, q),
                reps.finite(),
                reps == Set::new(|q: Point| first_of_component(d, want, q) && (bounded_only ==> enclosed(d, want, q)) && scanned(d, by as int, bx as int, q)),
                count == reps.len(),
                count <= by * w + bx,
            decreases w - bx,
        {
            let seed: Point = ((origin.0 as i64 + bx as i64) as i32, (origin.1 as i64 + by as i64) as i32);
            let ghost old_reps = reps;
            let ghost mk0 = marks;
            proof {
                assert(seed.0 - d.ox() == bx && seed.1 - d.oy() == by);
                assert(d.in_box(seed));
            }
            let mut counted = false;
            if d.contains(seed) == want && !marks.contains(seed) {
                proof {
                    assert forall|r: Point| #[trigger] linked(d, want, seed, r) implies !scan_before(r, seed) by {
                        if scan_before(r, seed) {
                            lemma_linked_members(d, want, seed, r);
                            assert(scanned(d, by as int, bx as int, r));
                            assert(marks.has(r));
                            lemma_linked_symm(d, want, seed, r);
                            assert(marks.has(seed));
                        }
                    }
                    assert(first_of_component(d, want, seed));
                }
                let comp = flood(d, want, &mut marks, seed);
                let border = reaches_border(d, &comp);
                proof {
                    assert(enclosed(d, want, seed) == !border) by {
                        if border {
                            let i = choose|i: int| 0 <= i < comp@.len() && d.on_border(#[trigger] comp@[i]);
                            assert(comp@.contains(comp@[i]));
                            assert(linked(d, want, seed, comp@[i]));
                        } else {
                            assert forall|r: Point| #[trigger] linked(d, want, seed, r) implies !d.on_border(r) by {
                                assert(comp@.contains(r));
                                let i = choose|i: int| 0 <= i < comp@.len() && comp@[i] == r;
                                assert(!d.on_border(comp@[i]));
                            }
                        }
                    }
                }
                if !bounded_only || !border {
                    counted = true;
                }
            } else {
                proof {
                    if member(d, want, seed) {
                        assert(marks.has(seed));
                        let s = choose|s: Point| scanned(d, by as int, bx as int, s) && #[trigger] linked(d, want, s, seed);
                        lemma_linked_symm(d, want, s, seed);
                        assert(scan_before(s, seed));
                        assert(!first_of_component(d, want, seed));
                    }
                }
            }
            proof {
                let ns = Set::new(|q: Point| first_of_component(d, want, q) && (bounded_only ==> enclosed(d, want, q)) && scanned(d, by as int, bx + 1, q));
                assert forall|q: Point| #[trigger] ns.contains(q) == (old_reps.contains(q) || (counted && q == seed)) by {
                    if q == seed {
                        assert(scanned(d, by as int, bx + 1, q));
                        assert(!scanned(d, by as int, bx as int, q));
                    } else {
                        assert(scanned(d, by as int, bx + 1, q) == scanned(d, by as int, bx as int, q));
                    }
                }
                if counted {
                    assert(!old_reps.contains(seed));
                    assert(ns =~= old_reps.insert(seed));
                } else {
                    assert(ns =~= old_reps);
                }
                reps = ns;
                // marks: every member scanned so far is marked
                assert forall|q: Point| member(d, want, q) && scanned(d, by as int, bx + 1, q) implies #[trigger] marks.has(q) by {
                    if q == seed {
                        if !mk0.has(seed) {
                            lemma_linked_refl(d, want, seed);
                        }
                    } else {
                        assert(scanned(d, by as int, bx as int, q));
                        assert(mk0.has(q));
                    }
                }
                assert forall|q: Point| #[trigger] marks.has(q) implies exists|s: Point| scanned(d, by as int, bx + 1, s) && #[trigger] linked(d, want, s, q) by {
                    if mk0.has(q) {
                        let s = choose|s: Point| scanned(d, by as int, bx as int, s) && #[trigger] linked(d, want, s, q);
                        assert(scanned(d, by as int, bx + 1, s));
                    } else {
                        assert(linked(d, want, seed, q));
                        assert(scanned(d, by as int, bx + 1, seed));
                    }
                }
                assert forall|p: Point, q: Point| #[trigger] marks.has(p) && #[trigger] linked(d, want, p, q) implies marks.has(q) by {
                    if !mk0.has(p) {
                        assert(linked(d, want, seed, p));
                        lemma_linked_trans(d, want, seed, p, q);
                    }
                }
                assert forall|p: Point| #[trigger] marks.has(p) implies member(d, want, p) by {
                    if !mk0.has(p) {
                        lemma_linked_members(d, want, seed, p);
                    }
                }
            }
            proof {
                assert(by * w + bx < w * hh) by (nonlinear_arith)
                    requires by < hh, bx < w;
            }
            if counted {
                count = count + 1;
            }
            bx = bx + 1;
        }
        proof {
            assert forall|q: Point| scanned(d, by + 1, 0, q) == scanned(d, by as int, w as int, q) by {}
            assert(reps =~= Set::new(|q: Point| first_of_component(d, want, q) && (bounded_only ==> enclosed(d, want, q)) && scanned(d, by + 1, 0, q)));
            assert((by + 1) * w == by * w + w) by (nonlinear_arith);
        }
        by = by + 1;
    }
    proof {
        assert(reps =~= component_firsts(d, want, bounded_only)) by {
            assert forall|q: Point| #[trigger] reps.contains(q) == component_firsts(d, want, bounded_only).contains(q) by {
                if member(d, want, q) {
                    assert(scanned(d, by as int, 0, q));
                }
            }
        }
    }
    count
}

/// The number of 4-connected components of `d`'s drivable cells.
pub fn component_count(d: &Corridor) -> (n: usize)
    requires
        d.wf(),
        box_small(d),
        cells_fit(d),
    ensures
        n == component_firsts(d, true, false).len(),
{
    count_components(d, true, false)
}

/// The number of bounded 4-connected components of `d`'s complement — the
/// holes that `d` encloses.
pub fn bounded_complement_components(d: &Corridor) -> (n: usize)
    requires
        d.wf(),
        box_small(d),
        cells_fit(d),
    ensures
        n == component_firsts(d, false, true).len(),
{
    count_components(d, false, true)
}

} // verus!
