//! Sets of lattice points: ordered enumeration and extremal coordinates.

use vstd::prelude::*;
use std::collections::BTreeSet;
use vstd::std_specs::iter::IteratorSpec;
use crate::geom::Point;
use crate::order::{lemma_ascending_unique, lemma_point_order, point_before, point_order_ok, points_ascending, sorted_points};

verus! {

broadcast use vstd::std_specs::btree::group_btree_axioms;

/// Inserts `x`, which `r` does not hold, into the ascending `r` at its
/// place, scanning from the back (so an `x` past every point is appended
/// at once).
fn insert_ascending(r: &mut Vec<Point>, x: Point)
    requires
        points_ascending(old(r)@),
        !old(r)@.contains(x),
    ensures
        points_ascending(final(r)@),
        final(r)@.to_set() == old(r)@.to_set().insert(x),
        final(r)@.len() == old(r)@.len() + 1,
{
    let mut p: usize = r.len();
    while p > 0 && (x.0 < r[p - 1].0 || (x.0 == r[p - 1].0 && x.1 < r[p - 1].1))
        invariant
            p <= r.len(),
            forall|k: int| p <= k < r@.len() ==> point_before(x, #[trigger] r@[k]),
        decreases p,
    {
        p = p - 1;
    }
    let ghost before = r@;
    r.insert(p, x);
    proof {
        if p > 0 {
            assert(!point_before(x, before[p - 1]));
            assert(before[p - 1] != x) by {
                assert(before.contains(before[p - 1]));
            }
        }
        assert forall|a: int, b: int| 0 <= a < b < r@.len() implies point_before(#[trigger] r@[a], #[trigger] r@[b]) by {
            if b < p {
                assert(r@[a] == before[a] && r@[b] == before[b]);
            } else if b == p {
                assert(r@[a] == before[a]);
                if a < p - 1 {
                    assert(point_before(before[a], before[p - 1]));
                }
            } else if a < p {
                assert(r@[a] == before[a] && r@[b] == before[b - 1]);
                if a < p - 1 {
                    assert(point_before(before[a], before[p - 1]));
                }
            } else if a == p {
                assert(r@[b] == before[b - 1]);
            } else {
                assert(r@[a] == before[a - 1] && r@[b] == before[b - 1]);
            }
        }
        assert(r@.to_set() =~= before.to_set().insert(x)) by {
            assert forall|q: Point| r@.to_set().contains(q) implies before.to_set().insert(x).contains(q) by {
                let i = choose|i: int| 0 <= i < r@.len() && r@[i] == q;
                if i < p {
                    assert(before[i] == q);
                } else if i > p {
                    assert(before[i - 1] == q);
                }
            }
            assert forall|q: Point| before.to_set().insert(x).contains(q) implies r@.to_set().contains(q) by {
                if q == x {
                    assert(r@[p as int] == x);
                } else {
                    let i = choose|i: int| 0 <= i < before.len() && before[i] == q;
                    if i < p {
                        assert(r@[i] == q);
                    } else {
                        assert(r@[i + 1] == q);
                    }
                }
            }
        }
    }
}

/// The points of `s` in ascending (`x`-major) order, without duplicates.
pub fn set_to_vec(s: &BTreeSet<Point>) -> (v: Vec<Point>)
    ensures
        v@.to_set() == s@,
        v@.no_duplicates(),
        v@.len() == s@.len(),
        forall|i: int| 0 <= i < v@.len() ==> s@.contains(#[trigger] v@[i]),
        points_ascending(v@),
        v@ == sorted_points(s@),
{
    proof {
        lemma_point_order();
    }
    let ghost keys: Seq<Point> = vstd::std_specs::btree::spec_btree_keys_iter(s).remaining().unref();
    proof {
        assert(keys.to_set() == s@);
        assert(keys.no_duplicates());
    }
    let mut v: Vec<Point> = Vec::new();
    for p in it: s.iter()
        invariant
            it.seq().unref() == keys,
            keys.no_duplicates(),
            points_ascending(v@),
            v@.to_set() == keys.take(it.index()).to_set(),
            v@.len() == it.index(),
    {
        let ghost k = it.index();
        proof {
            assert(keys[k] == *p);
            assert(!v@.contains(*p)) by {
                if v@.contains(*p) {
                    assert(v@.to_set().contains(*p));
                    let i = choose|i: int| 0 <= i < keys.take(k).len() && keys.take(k)[i] == *p;
                    assert(keys[i] == keys[k]);
                }
            }
        }
        insert_ascending(&mut v, *p);
        proof {
            assert(keys.take(k + 1) == keys.take(k).push(*p));
            assert(keys.take(k).push(*p).to_set() =~= keys.take(k).to_set().insert(*p)) by {
                assert forall|q: Point| keys.take(k).push(*p).to_set().contains(q) implies keys.take(k).to_set().insert(*p).contains(q) by {
                    let i = choose|i: int| 0 <= i < keys.take(k).push(*p).len() && keys.take(k).push(*p)[i] == q;
                    if i < k {
                        assert(keys.take(k)[i] == q);
                    }
                }
                assert forall|q: Point| keys.take(k).to_set().insert(*p).contains(q) implies keys.take(k).push(*p).to_set().contains(q) by {
                    if q == *p {
                        assert(keys.take(k).push(*p)[k] == q);
                    } else {
                        let i = choose|i: int| 0 <= i < keys.take(k).len() && keys.take(k)[i] == q;
                        assert(keys.take(k).push(*p)[i] == q);
                    }
                }
            }
        }
    }
    proof {
        assert(keys.take(keys.len() as int) == keys);
        assert(v@.len() == keys.len());
        assert(v@.no_duplicates()) by {
            assert forall|i: int, j: int| 0 <= i < v@.len() && 0 <= j < v@.len() && i != j implies v@[i] != v@[j] by {
                if i < j {
                    assert(point_before(v@[i], v@[j]));
                } else {
                    assert(point_before(v@[j], v@[i]));
                }
            }
        }
        assert(s@.len() == keys.len()) by {
            keys.unique_seq_to_set();
        }
        assert forall|i: int| 0 <= i < v@.len() implies s@.contains(#[trigger] v@[i]) by {
            assert(v@.to_set().contains(v@[i]));
        }
        let w = sorted_points(s@);
        assert(points_ascending(v@) && v@.to_set() == s@);
        lemma_ascending_unique(v@, w);
    }
    v
}

/// Inserts every point of `v` into `s`.
pub fn insert_all(s: &mut BTreeSet<Point>, v: &Vec<Point>)
    ensures
        final(s)@ == old(s)@.union(v@.to_set()),
{
    proof {
        lemma_point_order();
    }
    let mut i: usize = 0;
    while i < v.len()
        invariant
            i <= v.len(),
            point_order_ok(),
            s@ == old(s)@.union(v@.take(i as int).to_set()),
        decreases v.len() - i,
    {
        s.insert(v[i]);
        proof {
            assert(v@.take(i + 1) == v@.take(i as int).push(v@[i as int]));
            v@.take(i as int).lemma_push_to_set_commute(v@[i as int]);
        }
        i = i + 1;
    }
    proof {
        assert(v@.take(v@.len() as int) == v@);
    }
}

/// The number of points of `s`; the view of `s` is finite.
pub fn set_len(s: &BTreeSet<Point>) -> (r: usize)
    ensures
        r == s@.len(),
        s@.finite(),
{
    proof {
        lemma_point_order();
    }
    let v = set_to_vec(s);
    proof {
        v@.unique_seq_to_set();
        vstd::seq_lib::seq_to_set_is_finite(v@);
    }
    s.len()
}

/// Whether `s` contains `p`.
pub fn set_has(s: &BTreeSet<Point>, p: Point) -> (r: bool)
    ensures
        r == s@.contains(p),
{
    proof {
        lemma_point_order();
    }
    s.contains(&p)
}

/// Inserts `p` into `s`.
pub fn set_add(s: &mut BTreeSet<Point>, p: Point)
    ensures
        final(s)@ == old(s)@.insert(p),
{
    proof {
        lemma_point_order();
    }
    s.insert(p);
}

/// `v` is the least `x` coordinate of `s`'s points.
pub open spec fn is_min_x(s: Set<Point>, v: int) -> bool {
    (exists|p: Point| s.contains(p) && p.0 == v) && forall|p: Point| s.contains(p) ==> v <= p.0
}

/// `v` is the greatest `x` coordinate of `s`'s points.
pub open spec fn is_max_x(s: Set<Point>, v: int) -> bool {
    (exists|p: Point| s.contains(p) && p.0 == v) && forall|p: Point| s.contains(p) ==> p.0 <= v
}

/// `v` is the least `y` coordinate of `s`'s points.
pub open spec fn is_min_y(s: Set<Point>, v: int) -> bool {
    (exists|p: Point| s.contains(p) && p.1 == v) && forall|p: Point| s.contains(p) ==> v <= p.1
}

/// `v` is the greatest `y` coordinate of `s`'s points.
pub open spec fn is_max_y(s: Set<Point>, v: int) -> bool {
    (exists|p: Point| s.contains(p) && p.1 == v) && forall|p: Point| s.contains(p) ==> p.1 <= v
}

/// The extremal coordinates `(min x, max x, min y, max y)` of a non-empty
/// point set, or `None` for the empty set.
pub fn bounds(s: &BTreeSet<Point>) -> (r: Option<(i32, i32, i32, i32)>)
    ensures
        r is None <==> s@.is_empty(),
        r matches Some(b) ==> is_min_x(s@, b.0 as int) && is_max_x(s@, b.1 as int) && is_min_y(
            s@,
            b.2 as int,
        ) && is_max_y(s@, b.3 as int),
{
    let v = set_to_vec(s);
    if v.len() == 0 {
        proof {
            assert(s@ =~= Set::empty()) by {
                assert forall|p: Point| !s@.contains(p) by {
                    if s@.contains(p) {
                        assert(v@.to_set().contains(p));
                    }
                }
            }
        }
        return None;
    }
    let mut b = (v[0].0, v[0].0, v[0].1, v[0].1);
    let mut i: usize = 1;
    while i < v.len()
        invariant
            1 <= i <= v.len(),
            v@.to_set() == s@,
            exists|j: int| 0 <= j < i && v@[j].0 == b.0,
            exists|j: int| 0 <= j < i && v@[j].0 == b.1,
            exists|j: int| 0 <= j < i && v@[j].1 == b.2,
            exists|j: int| 0 <= j < i && v@[j].1 == b.3,
            forall|j: int| 0 <= j < i ==> b.0 <= #[trigger] v@[j].0 <= b.1 && b.2 <= v@[j].1 <= b.3,
        decreases v.len() - i,
    {
        let p = v[i];
        if p.0 < b.0 {
            b.0 = p.0;
        }
        if p.0 > b.1 {
            b.1 = p.0;
        }
        if p.1 < b.2 {
            b.2 = p.1;
        }
        if p.1 > b.3 {
            b.3 = p.1;
        }
        proof {
            assert(v@[i as int] == p);
            assert forall|j: int| 0 <= j < i + 1 implies b.0 <= #[trigger] v@[j].0 <= b.1 && b.2
                <= v@[j].1 <= b.3 by {
                if j < i {
                }
            }
        }
        i = i + 1;
    }
    proof {
        assert forall|p: Point| s@.contains(p) implies b.0 <= p.0 <= b.1 && b.2 <= p.1 <= b.3 by {
            assert(v@.to_set().contains(p));
            let j = choose|j: int| 0 <= j < v@.len() && v@[j] == p;
            assert(b.0 <= v@[j].0);
        }
        let j0 = choose|j: int| 0 <= j < i && v@[j].0 == b.0;
        let j1 = choose|j: int| 0 <= j < i && v@[j].0 == b.1;
        let j2 = choose|j: int| 0 <= j < i && v@[j].1 == b.2;
        let j3 = choose|j: int| 0 <= j < i && v@[j].1 == b.3;
        assert(s@.contains(v@[j0]));
        assert(s@.contains(v@[j1]));
        assert(s@.contains(v@[j2]));
        assert(s@.contains(v@[j3]));
        assert(s@.contains(v@[0]));
    }
    Some(b)
}

} // verus!
