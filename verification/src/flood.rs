//! 4-connected components of a corridor's complement within its box.

use vstd::prelude::*;
use crate::corridor::Corridor;
use crate::geom::{adjacent4, neighbors4, neighbors4_spec, Point};
use crate::raster::box_small;

verus! {

broadcast use crate::corridor::Corridor::lemma_has_in_box;

/// A non-drivable cell inside the box.
pub open spec fn open_cell(d: &Corridor, p: Point) -> bool {
    d.in_box(p) && !d.has(p)
}

/// A cell inside the box whose drivability is `want`: a drivable cell for
/// `want == true`, an open (non-drivable) one for `want == false`.
pub open spec fn member(d: &Corridor, want: bool, p: Point) -> bool {
    d.in_box(p) && d.has(p) == want
}

/// `s` is a 4-connected walk through cells of class `want`.
pub open spec fn is_path(d: &Corridor, want: bool, s: Seq<Point>) -> bool {
    &&& s.len() >= 1
    &&& forall|i: int| 0 <= i < s.len() ==> member(d, want, #[trigger] s[i])
    &&& forall|i: int| 0 <= i < s.len() - 1 ==> adjacent4(#[trigger] s[i], s[i + 1])
}

/// `p` and `q` lie in the same 4-connected component of the box's cells of
/// class `want`.
pub open spec fn linked(d: &Corridor, want: bool, p: Point, q: Point) -> bool {
    exists|s: Seq<Point>| #[trigger] is_path(d, want, s) && s[0] == p && s.last() == q
}

/// An open cell is linked to itself.
pub proof fn lemma_linked_refl(d: &Corridor, want: bool, p: Point)
    requires
        member(d, want, p),
    ensures
        linked(d, want, p, p),
{
    let s = seq![p];
    assert(is_path(d, want, s));
}

/// Linking is symmetric.
pub proof fn lemma_linked_symm(d: &Corridor, want: bool, p: Point, q: Point)
    requires
        linked(d, want, p, q),
    ensures
        linked(d, want, q, p),
{
    let s = choose|s: Seq<Point>| #[trigger] is_path(d, want, s) && s[0] == p && s.last() == q;
    let r = s.reverse();
    assert forall|i: int| 0 <= i < r.len() - 1 implies adjacent4(#[trigger] r[i], r[i + 1]) by {
        let j = s.len() - 2 - i;
        assert(adjacent4(s[j], s[j + 1]));
        assert(r[i] == s[j + 1] && r[i + 1] == s[j]);
    }
    assert forall|i: int| 0 <= i < r.len() implies member(d, want, #[trigger] r[i]) by {
        assert(r[i] == s[s.len() - 1 - i]);
    }
    assert(is_path(d, want, r));
}

/// Linking is transitive.
pub proof fn lemma_linked_trans(d: &Corridor, want: bool, p: Point, q: Point, r: Point)
    requires
        linked(d, want, p, q),
        linked(d, want, q, r),
    ensures
        linked(d, want, p, r),
{
    let s = choose|s: Seq<Point>| #[trigger] is_path(d, want, s) && s[0] == p && s.last() == q;
    let t = choose|t: Seq<Point>| #[trigger] is_path(d, want, t) && t[0] == q && t.last() == r;
    let u = s + t.drop_first();
    assert forall|i: int| 0 <= i < u.len() - 1 implies adjacent4(#[trigger] u[i], u[i + 1]) by {
        if i < s.len() - 1 {
            assert(adjacent4(s[i], s[i + 1]));
        } else if i == s.len() - 1 {
            assert(u[i] == q && u[i + 1] == t[1]);
            assert(adjacent4(t[0], t[1]));
        } else {
            let j = i - s.len() + 1;
            assert(u[i] == t[j] && u[i + 1] == t[j + 1]);
            assert(adjacent4(t[j], t[j + 1]));
        }
    }
    assert forall|i: int| 0 <= i < u.len() implies member(d, want, #[trigger] u[i]) by {
        if i < s.len() {
            assert(member(d, want, s[i]));
        } else {
            assert(u[i] == t[i - s.len() + 1]);
            assert(member(d, want, t[i - s.len() + 1]));
        }
    }
    if t.len() == 1 {
        assert(u =~= s);
    }
    assert(is_path(d, want, u));
}

/// A link extends across one more open neighbor.
pub proof fn lemma_linked_extend(d: &Corridor, want: bool, p: Point, q: Point, r: Point)
    requires
        linked(d, want, p, q),
        member(d, want, r),
        adjacent4(q, r),
    ensures
        linked(d, want, p, r),
{
    let s = choose|s: Seq<Point>| #[trigger] is_path(d, want, s) && s[0] == p && s.last() == q;
    let t = s.push(r);
    assert forall|i: int| 0 <= i < t.len() - 1 implies adjacent4(#[trigger] t[i], t[i + 1]) by {
        if i < s.len() - 1 {
            assert(adjacent4(s[i], s[i + 1]));
        }
    }
    assert forall|i: int| 0 <= i < t.len() implies member(d, want, #[trigger] t[i]) by {
        if i < s.len() {
            assert(member(d, want, s[i]));
        }
    }
    assert(is_path(d, want, t));
}

/// A set holding a path's first cell and closed under open 4-neighbors
/// holds the path's last cell.
pub proof fn lemma_closed_holds_path_end(d: &Corridor, want: bool, s: Seq<Point>, set: Set<Point>)
    requires
        is_path(d, want, s),
        set.contains(s[0]),
        forall|x: Point, n: Point| set.contains(x) && member(d, want, n) && #[trigger] adjacent4(x, n) ==> #[trigger] set.contains(n),
    ensures
        set.contains(s.last()),
    decreases s.len(),
{
    if s.len() > 1 {
        let t = s.drop_last();
        assert forall|i: int| 0 <= i < t.len() - 1 implies adjacent4(#[trigger] t[i], t[i + 1]) by {
            assert(adjacent4(s[i], s[i + 1]));
        }
        assert forall|i: int| 0 <= i < t.len() implies member(d, want, #[trigger] t[i]) by {
            assert(member(d, want, s[i]));
        }
        lemma_closed_holds_path_end(d, want, t, set);
        assert(adjacent4(s[s.len() - 2], s[s.len() - 1]));
        assert(member(d, want, s[s.len() - 1]));
    }
}

/// Within a small box, the four saturating neighbors of an in-box cell are
/// exactly its four lattice neighbors.
pub proof fn lemma_neighbors_exact(d: &Corridor, p: Point)
    requires
        box_small(d),
        d.in_box(p),
    ensures
        forall|n: Point| adjacent4(p, n) <==> neighbors4_spec(p).contains(n),
        forall|i: int| 0 <= i < 4 ==> adjacent4(p, #[trigger] neighbors4_spec(p)[i]),
{
    let ns = neighbors4_spec(p);
    assert(ns[0] == ((p.0 + 1) as i32, p.1));
    assert forall|n: Point| adjacent4(p, n) implies neighbors4_spec(p).contains(n) by {
        if n.0 == p.0 + 1 {
            assert(ns[0] == n);
        } else if n.0 == p.0 - 1 {
            assert(ns[1] == n);
        } else if n.1 == p.1 + 1 {
            assert(ns[2] == n);
        } else {
            assert(ns[3] == n);
        }
    }
}

proof fn lemma_contains_push(s: Seq<Point>, a: Point)
    ensures
        forall|q: Point| #[trigger] s.push(a).contains(q) == (s.contains(q) || q == a),
{
    assert forall|q: Point| #[trigger] s.push(a).contains(q) == (s.contains(q) || q == a) by {
        if s.contains(q) {
            let i = choose|i: int| 0 <= i < s.len() && s[i] == q;
            assert(s.push(a)[i] == q);
        }
        if q == a {
            assert(s.push(a)[s.len() as int] == q);
        }
        if s.push(a).contains(q) {
            let i = choose|i: int| 0 <= i < s.len() + 1 && s.push(a)[i] == q;
            if i < s.len() {
                assert(s[i] == q);
            }
        }
    }
}

proof fn lemma_contains_drop_last(s: Seq<Point>)
    requires
        s.len() >= 1,
    ensures
        forall|q: Point| #[trigger] s.contains(q) == (s.drop_last().contains(q) || q == s.last()),
{
    lemma_contains_push(s.drop_last(), s.last());
    assert(s.drop_last().push(s.last()) =~= s);
}

/// Marks `n` and pushes it onto `stack` if it is an unmarked cell of class
/// `want`.
fn visit_cell(d: &Corridor, want: bool, marks: &mut Corridor, stack: &mut Vec<Point>, n: Point) -> (pushed: bool)
    requires
        d.wf(),
        old(marks).wf(),
        old(marks).same_box(d),
    ensures
        final(marks).wf(),
        final(marks).same_box(d),
        pushed == (member(d, want, n) && !old(marks).has(n)),
        forall|q: Point| #[trigger] final(marks).has(q) == (old(marks).has(q) || (pushed && q == n)),
        final(stack)@ == if pushed { old(stack)@.push(n) } else { old(stack)@ },
        final(marks).count() == old(marks).count() + if pushed { 1int } else { 0 },
{
    if d.box_contains(n) && d.contains(n) == want && !marks.contains(n) {
        marks.set(n, true);
        stack.push(n);
        true
    } else {
        false
    }
}

/// The cells of `seed`'s component of the box's cells of class `want` (each
/// once, in discovery order). `marks` records visits: it must already hold
/// exactly a union of whole components, none of them `seed`'s, and gains
/// `seed`'s.
pub fn flood(d: &Corridor, want: bool, marks: &mut Corridor, seed: Point) -> (comp: Vec<Point>)
    requires
        d.wf(),
        box_small(d),
        old(marks).wf(),
        old(marks).same_box(d),
        member(d, want, seed),
        !old(marks).has(seed),
        forall|p: Point| #[trigger] old(marks).has(p) ==> member(d, want, p),
        forall|p: Point, q: Point| #[trigger] old(marks).has(p) && #[trigger] linked(d, want, p, q) ==> old(marks).has(q),
    ensures
        final(marks).wf(),
        final(marks).same_box(d),
        forall|q: Point| #[trigger] final(marks).has(q) == (old(marks).has(q) || linked(d, want, seed, q)),
        forall|q: Point| #[trigger] comp@.contains(q) == linked(d, want, seed, q),
{
    proof {
        lemma_linked_refl(d, want, seed);
    }
    let ghost m0 = *marks;
    marks.set(seed, true);
    let mut stack: Vec<Point> = vec![seed];
    let mut comp: Vec<Point> = Vec::new();
    proof {
        marks.lemma_count_bound();
        assert(stack@ == seq![seed]);
        assert(stack@[0] == seed);
    }
    while stack.len() > 0
        invariant
            d.wf(),
            box_small(d),
            marks.wf(),
            marks.same_box(d),
            m0 == *old(marks),
            member(d, want, seed),
            !m0.has(seed),
            forall|p: Point| #[trigger] m0.has(p) ==> member(d, want, p),
            forall|p: Point, q: Point| #[trigger] m0.has(p) && #[trigger] linked(d, want, p, q) ==> m0.has(q),
            forall|q: Point| #[trigger] marks.has(q) == (m0.has(q) || comp@.contains(q) || stack@.contains(q)),
            forall|q: Point| comp@.contains(q) || stack@.contains(q) ==> #[trigger] linked(d, want, seed, q),
            comp@.contains(seed) || stack@.contains(seed),
            forall|x: Point, n: Point| comp@.contains(x) && member(d, want, n) && #[trigger] adjacent4(x, n) ==> #[trigger] marks.has(n),
            0 <= marks.count() <= marks.w() * marks.h(),
        decreases 2 * (marks.w() * marks.h() - marks.count()) + stack@.len(),
    {
        let ghost st0 = stack@;
        let ghost c0 = comp@;
        let ghost mk0 = *marks;
        let cur = stack.pop().unwrap();
        comp.push(cur);
        proof {
            lemma_contains_drop_last(st0);
            lemma_contains_push(c0, cur);
            assert(st0.contains(cur));
            assert(linked(d, want, seed, cur));
            let sp = choose|s: Seq<Point>| #[trigger] is_path(d, want, s) && s[0] == seed && s.last() == cur;
            assert(member(d, want, sp[sp.len() - 1]));
            lemma_neighbors_exact(d, cur);
        }
        let ns = neighbors4(cur);
        let ghost s1 = stack@;
        let p0 = visit_cell(d, want, marks, &mut stack, ns[0]);
        let p1 = visit_cell(d, want, marks, &mut stack, ns[1]);
        let p2 = visit_cell(d, want, marks, &mut stack, ns[2]);
        let p3 = visit_cell(d, want, marks, &mut stack, ns[3]);
        proof {
            let nsq = ns@;
            let pushed = |q: Point| (p0 && q == nsq[0]) || (p1 && q == nsq[1]) || (p2 && q == nsq[2]) || (p3 && q == nsq[3]);
            assert forall|q: Point| #[trigger] stack@.contains(q) == (s1.contains(q) || pushed(q)) by {
                let t0 = if p0 { s1.push(nsq[0]) } else { s1 };
                let t1 = if p1 { t0.push(nsq[1]) } else { t0 };
                let t2 = if p2 { t1.push(nsq[2]) } else { t1 };
                lemma_contains_push(s1, nsq[0]);
                lemma_contains_push(t0, nsq[1]);
                lemma_contains_push(t1, nsq[2]);
                lemma_contains_push(t2, nsq[3]);
            }
            assert forall|q: Point| #[trigger] marks.has(q) == (mk0.has(q) || pushed(q)) by {}
            assert forall|q: Point| pushed(q) implies #[trigger] linked(d, want, seed, q) by {
                if pushed(q) {
                    assert(adjacent4(cur, q));
                    lemma_linked_extend(d, want, seed, cur, q);
                }
            }
            marks.lemma_count_bound();
            assert forall|x: Point, n: Point| comp@.contains(x) && member(d, want, n) && #[trigger] adjacent4(x, n) implies #[trigger] marks.has(n) by {
                if x == cur {
                    assert(nsq.contains(n));
                    let i = choose|i: int| 0 <= i < nsq.len() && nsq[i] == n;
                    assert(i == 0 || i == 1 || i == 2 || i == 3);
                } else {
                    assert(c0.contains(x));
                    assert(mk0.has(n));
                }
            }
        }
    }
    proof {
        assert forall|q: Point| #[trigger] comp@.contains(q) == linked(d, want, seed, q) by {
            if linked(d, want, seed, q) {
                let s = choose|s: Seq<Point>| #[trigger] is_path(d, want, s) && s[0] == seed && s.last() == q;
                let cs = comp@.to_set();
                assert forall|x: Point, n: Point| cs.contains(x) && member(d, want, n) && #[trigger] adjacent4(x, n) implies #[trigger] cs.contains(n) by {
                    assert(comp@.contains(x));
                    assert(marks.has(n));
                    if m0.has(n) {
                        assert(linked(d, want, seed, x));
                        lemma_linked_extend(d, want, seed, x, n);
                        lemma_linked_symm(d, want, seed, n);
                        assert(m0.has(seed));
                    }
                    assert(comp@.contains(n));
                }
                assert(cs.contains(s[0]));
                lemma_closed_holds_path_end(d, want, s, cs);
            }
        }
        assert forall|q: Point| #[trigger] marks.has(q) == (m0.has(q) || linked(d, want, seed, q)) by {
            assert(comp@.contains(q) == linked(d, want, seed, q));
        }
    }
    comp
}

} // verus!
