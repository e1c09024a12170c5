//! Ф7 — the integer geometry of the racing centerline's loop: the winding
//! sign of a closed cell polygon, orienting a loop to the race direction,
//! and pruning dangling spurs off a ridge set.

use vstd::prelude::*;
use std::collections::BTreeSet;
use crate::checks::{degree_in, hole_degree};
use crate::geom::{Point, RaceDir};
use crate::points::{set_add, set_len, set_to_vec};

verus! {

broadcast use vstd::std_specs::btree::group_btree_axioms;

/// The cross product `a × b` of two lattice points taken as vectors.
pub open spec fn cross(a: Point, b: Point) -> int {
    a.0 * b.1 - b.0 * a.1
}

/// The cross products of consecutive points `s[0..m]`, each with its
/// successor (the last one wrapping round to `s[0]`).
pub open spec fn cross_sum(s: Seq<Point>, m: int) -> int
    decreases m,
{
    if m <= 0 {
        0
    } else {
        cross_sum(s, m - 1) + cross(s[m - 1], s[m % (s.len() as int)])
    }
}

/// Twice the signed area of the closed polygon `s`: positive for a
/// counter-clockwise winding (with `x` east and `y` north), negative for a
/// clockwise one.
pub open spec fn shoelace_spec(s: Seq<Point>) -> int {
    cross_sum(s, s.len() as int)
}

/// The integer shoelace sum of the closed polygon `poly` — twice its signed
/// area: `+2` for the counter-clockwise unit square, `-2` for the
/// clockwise one.
pub fn shoelace(poly: &Vec<Point>) -> (r: i128)
    requires
        poly@.len() < 0x1000_0000_0000_0000,
    ensures
        r == shoelace_spec(poly@),
{
    let n = poly.len();
    let mut acc: i128 = 0;
    let mut i: usize = 0;
    while i < n
        invariant
            n == poly@.len(),
            n < 0x1000_0000_0000_0000,
            i <= n,
            acc == cross_sum(poly@, i as int),
            -(i as int) * 0x8000_0000_0000_0000 <= acc <= (i as int) * 0x8000_0000_0000_0000,
        decreases n - i,
    {
        let a = poly[i];
        let j = if i + 1 == n { 0 } else { i + 1 };
        let b = poly[j];
        proof {
            assert(-0x4000_0000_0000_0000 <= (a.0 as int) * (b.1 as int) <= 0x4000_0000_0000_0000) by (nonlinear_arith)
                requires -0x8000_0000 <= a.0 < 0x8000_0000, -0x8000_0000 <= b.1 < 0x8000_0000;
            assert(-0x4000_0000_0000_0000 <= (b.0 as int) * (a.1 as int) <= 0x4000_0000_0000_0000) by (nonlinear_arith)
                requires -0x8000_0000 <= b.0 < 0x8000_0000, -0x8000_0000 <= a.1 < 0x8000_0000;
        }
        let t1: i128 = a.0 as i128 * b.1 as i128;
        let t2: i128 = b.0 as i128 * a.1 as i128;
        proof {
            if i + 1 < n {
                vstd::arithmetic::div_mod::lemma_small_mod((i + 1) as nat, n as nat);
            } else {
                assert((i + 1) % (n as int) == 0) by {
                    vstd::arithmetic::div_mod::lemma_mod_self_0(n as int);
                }
            }
            assert((i + 1) % (n as int) == j as int);
            assert((i as int) * 0x8000_0000_0000_0000 + 0x8000_0000_0000_0000 == (i + 1) * 0x8000_0000_0000_0000);
            assert((i + 1) * 0x8000_0000_0000_0000 <= 0x1000_0000_0000_0000 * 0x8000_0000_0000_0000) by (nonlinear_arith)
                requires i + 1 <= 0x1000_0000_0000_0000;
        }
        acc = acc + (t1 - t2);
        i = i + 1;
    }
    acc
}

proof fn lemma_cross_antisym(a: Point, b: Point)
    ensures
        cross(a, b) == -cross(b, a),
{
}

/// The cross products of `s[0..m]` with their plain successors (no wrap).
spec fn chain_sum(s: Seq<Point>, m: int) -> int
    decreases m,
{
    if m <= 0 {
        0
    } else {
        chain_sum(s, m - 1) + cross(s[m - 1], s[m])
    }
}

proof fn lemma_cross_sum_split(s: Seq<Point>, m: int)
    requires
        0 <= m < s.len(),
    ensures
        cross_sum(s, m) == chain_sum(s, m),
    decreases m,
{
    if m > 0 {
        lemma_cross_sum_split(s, m - 1);
        vstd::arithmetic::div_mod::lemma_small_mod(m as nat, s.len());
    }
}

proof fn lemma_chain_sum_reverse(s: Seq<Point>, m: int)
    requires
        0 <= m < s.len(),
    ensures
        chain_sum(s.reverse(), m) == -(chain_sum(s, s.len() - 1) - chain_sum(s, s.len() - 1 - m)),
    decreases m,
{
    let n = s.len() as int;
    if m > 0 {
        lemma_chain_sum_reverse(s, m - 1);
        let r = s.reverse();
        assert(r[m - 1] == s[n - m] && r[m] == s[n - 1 - m]);
        lemma_cross_antisym(s[n - m], s[n - 1 - m]);
        assert(chain_sum(s, n - m) == chain_sum(s, n - 1 - m) + cross(s[n - 1 - m], s[n - m]));
    }
}

/// Reversing a closed polygon negates its shoelace sum: the reversed loop
/// winds the other way round.
pub proof fn lemma_shoelace_reverse(s: Seq<Point>)
    ensures
        shoelace_spec(s.reverse()) == -shoelace_spec(s),
{
    let n = s.len() as int;
    if n > 0 {
        let r = s.reverse();
        assert(cross_sum(s, n) == cross_sum(s, n - 1) + cross(s[n - 1], s[0])) by {
            vstd::arithmetic::div_mod::lemma_mod_self_0(n);
        }
        assert(cross_sum(r, n) == cross_sum(r, n - 1) + cross(r[n - 1], r[0])) by {
            vstd::arithmetic::div_mod::lemma_mod_self_0(n);
        }
        lemma_cross_sum_split(s, n - 1);
        lemma_cross_sum_split(r, n - 1);
        lemma_chain_sum_reverse(s, n - 1);
        assert(r[n - 1] == s[0] && r[0] == s[n - 1]);
        lemma_cross_antisym(s[0], s[n - 1]);
    }
}

/// The loop's winding matches the race direction: positive for
/// counter-clockwise, negative for clockwise.
pub open spec fn winds(s: Seq<Point>, dir: RaceDir) -> bool {
    match dir {
        RaceDir::Ccw => shoelace_spec(s) > 0,
        RaceDir::Cw => shoelace_spec(s) < 0,
    }
}

/// `cycle`, reversed if needed so that its shoelace sign matches
/// `race_dir` (`Ccw` ⇔ positive, `Cw` ⇔ negative). A degenerate loop of
/// zero area is left as it is.
pub fn orient(cycle: Vec<Point>, race_dir: RaceDir) -> (r: Vec<Point>)
    requires
        cycle@.len() < 0x1000_0000_0000_0000,
    ensures
        r@ == cycle@ || r@ == cycle@.reverse(),
        shoelace_spec(cycle@) != 0 ==> winds(r@, race_dir),
        shoelace_spec(cycle@) == 0 ==> r@ == cycle@,
{
    let area = shoelace(&cycle);
    let flip = match race_dir {
        RaceDir::Ccw => area < 0,
        RaceDir::Cw => area > 0,
    };
    if flip {
        let mut r: Vec<Point> = Vec::new();
        let mut i: usize = cycle.len();
        while i > 0
            invariant
                i <= cycle@.len(),
                r@ == cycle@.subrange(i as int, cycle@.len() as int).reverse(),
            decreases i,
        {
            i = i - 1;
            r.push(cycle[i]);
            proof {
                assert(r@ =~= cycle@.subrange(i as int, cycle@.len() as int).reverse());
            }
        }
        proof {
            assert(cycle@.subrange(0, cycle@.len() as int) == cycle@);
            lemma_shoelace_reverse(cycle@);
        }
        r
    } else {
        cycle
    }
}

/// The number of 4-neighbors of `p` in `s`.
pub fn degree(s: &BTreeSet<Point>, p: Point) -> (r: usize)
    ensures
        r == degree_in(s@, p),
{
    hole_degree(s, p)
}

/// `c` is a sub-ridge of `s` in which every cell has at least two
/// 4-neighbors.
pub open spec fn all_degree_two(s: Set<Point>, c: Set<Point>) -> bool {
    c.subset_of(s) && forall|p: Point| #[trigger] c.contains(p) ==> degree_in(c, p) >= 2
}

proof fn lemma_degree_monotone(a: Set<Point>, b: Set<Point>, p: Point)
    requires
        a.subset_of(b),
    ensures
        degree_in(a, p) <= degree_in(b, p),
{
}

/// The cells of `cur` with at least two 4-neighbors in `cur`.
fn strip_low_degree(cur: &BTreeSet<Point>) -> (r: BTreeSet<Point>)
    ensures
        r@ == cur@.filter(|p: Point| degree_in(cur@, p) >= 2),
{
    let v = set_to_vec(cur);
    let mut r: BTreeSet<Point> = BTreeSet::new();
    let mut i: usize = 0;
    while i < v.len()
        invariant
            i <= v@.len(),
            v@.to_set() == cur@,
            r@ == Set::new(|p: Point| degree_in(cur@, p) >= 2 && exists|k: int| 0 <= k < i && v@[k] == p),
        decreases v@.len() - i,
    {
        let p = v[i];
        if hole_degree(cur, p) >= 2 {
            set_add(&mut r, p);
        }
        proof {
            assert(v@[i as int] == p);
            assert(r@ =~= Set::new(|q: Point| degree_in(cur@, q) >= 2 && exists|k: int| 0 <= k < i + 1 && v@[k] == q));
        }
        i = i + 1;
    }
    proof {
        assert forall|p: Point| #[trigger] r@.contains(p) == cur@.filter(|q: Point| degree_in(cur@, q) >= 2).contains(p) by {
            if cur@.contains(p) {
                assert(v@.to_set().contains(p));
            }
            if r@.contains(p) {
                let k = choose|k: int| 0 <= k < v@.len() && v@[k] == p;
                assert(v@.to_set().contains(v@[k]));
            }
        }
        assert(r@ =~= cur@.filter(|q: Point| degree_in(cur@, q) >= 2));
    }
    r
}

/// Peels every dangling spur off `ridge`: repeatedly drops the cells with
/// fewer than two 4-neighbors until none is left. The result is the
/// largest sub-ridge in which every cell has degree at least 2 (the loop
/// core), or `None` when that is empty — a tree has no core.
pub fn prune_spurs(ridge: &BTreeSet<Point>) -> (r: Option<BTreeSet<Point>>)
    ensures
        r matches Some(core) ==> all_degree_two(ridge@, core@) && !core@.is_empty()
            && forall|c: Set<Point>| #[trigger] all_degree_two(ridge@, c) ==> c.subset_of(core@),
        r is None ==> forall|c: Set<Point>| #[trigger] all_degree_two(ridge@, c) ==> c.is_empty(),
{
    let mut cur = ridge.clone();
    let mut len = set_len(&cur);
    loop
        invariant
            cur@.subset_of(ridge@),
            cur@.finite(),
            len == cur@.len(),
            forall|c: Set<Point>| #[trigger] all_degree_two(ridge@, c) ==> c.subset_of(cur@),
        ensures
            cur@.subset_of(ridge@),
            len == cur@.len(),
            cur@.finite(),
            forall|c: Set<Point>| #[trigger] all_degree_two(ridge@, c) ==> c.subset_of(cur@),
            all_degree_two(ridge@, cur@),
        decreases len,
    {
        let next = strip_low_degree(&cur);
        let nlen = set_len(&next);
        proof {
            assert forall|c: Set<Point>| #[trigger] all_degree_two(ridge@, c) implies c.subset_of(next@) by {
                assert forall|p: Point| c.contains(p) implies next@.contains(p) by {
                    lemma_degree_monotone(c, cur@, p);
                }
            }
            vstd::set_lib::lemma_len_subset(next@, cur@);
        }
        if nlen == len {
            proof {
                assert(next@ =~= cur@) by {
                    if !(next@ =~= cur@) {
                        let p = choose|p: Point| cur@.contains(p) && !next@.contains(p);
                        vstd::set_lib::lemma_len_subset(next@, cur@.remove(p));
                    }
                }
                assert(all_degree_two(ridge@, cur@));
            }
            break;
        }
        cur = next;
        len = nlen;
    }
    if len == 0 {
        proof {
            assert forall|c: Set<Point>| #[trigger] all_degree_two(ridge@, c) implies c.is_empty() by {
                assert(c.subset_of(cur@));
                if !c.is_empty() {
                    let p = c.choose();
                    assert(cur@.contains(p));
                }
            }
        }
        None
    } else {
        proof {
            assert(!cur@.is_empty());
        }
        Some(cur)
    }
}

} // verus!
