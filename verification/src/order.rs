//! The ordering facts that ordered collections of points, car states and
//! lap-search nodes rely on.

use vstd::prelude::*;
use crate::geom::Point;

verus! {

/// Points obey the total order that ordered collections assume.
pub open spec fn point_order_ok() -> bool {
    vstd::laws_cmp::obeys_cmp::<Point>()
}

/// Points compare by the derived tuple order, which is a total order.
pub proof fn lemma_point_order()
    ensures
        point_order_ok(),
{
    broadcast use vstd::laws_cmp::group_laws_cmp;
}

/// `a` comes before `b` in `x`-major order.
pub open spec fn point_before(a: Point, b: Point) -> bool {
    a.0 < b.0 || (a.0 == b.0 && a.1 < b.1)
}

/// `s` is strictly ascending in `x`-major order.
pub open spec fn points_ascending(s: Seq<Point>) -> bool {
    forall|i: int, j: int| 0 <= i < j < s.len() ==> point_before(#[trigger] s[i], #[trigger] s[j])
}

/// Two ascending sequences of the same points are equal.
pub proof fn lemma_ascending_unique(s1: Seq<Point>, s2: Seq<Point>)
    requires
        points_ascending(s1),
        points_ascending(s2),
        s1.to_set() == s2.to_set(),
    ensures
        s1 == s2,
    decreases s1.len(),
{
    broadcast use vstd::seq_lib::group_seq_properties;
    if s1.len() == 0 {
        if s2.len() > 0 {
            assert(s2.to_set().contains(s2[0]));
        }
    } else if s2.len() == 0 {
        assert(s1.to_set().contains(s1[0]));
    } else {
        let (a, b) = (s1[0], s2[0]);
        assert(s2.to_set().contains(a));
        assert(s1.to_set().contains(b));
        let ia = choose|i: int| 0 <= i < s2.len() && s2[i] == a;
        let ib = choose|i: int| 0 <= i < s1.len() && s1[i] == b;
        if ia > 0 {
            assert(point_before(s2[0], s2[ia]));
            if ib > 0 {
                assert(point_before(s1[0], s1[ib]));
            }
        }
        if ib > 0 {
            assert(point_before(s1[0], s1[ib]));
        }
        assert(a == b);
        let (t1, t2) = (s1.drop_first(), s2.drop_first());
        assert(points_ascending(t1)) by {
            assert forall|i: int, j: int| 0 <= i < j < t1.len() implies point_before(#[trigger] t1[i], #[trigger] t1[j]) by {
                assert(point_before(s1[i + 1], s1[j + 1]));
            }
        }
        assert(points_ascending(t2)) by {
            assert forall|i: int, j: int| 0 <= i < j < t2.len() implies point_before(#[trigger] t2[i], #[trigger] t2[j]) by {
                assert(point_before(s2[i + 1], s2[j + 1]));
            }
        }
        assert(t1.to_set() =~= t2.to_set()) by {
            assert forall|x: Point| t1.to_set().contains(x) implies t2.to_set().contains(x) by {
                let i = choose|i: int| 0 <= i < t1.len() && t1[i] == x;
                assert(point_before(s1[0], s1[i + 1]));
                assert(s2.to_set().contains(x));
                let j = choose|j: int| 0 <= j < s2.len() && s2[j] == x;
                if j == 0 {
                    assert(false);
                }
                assert(t2[j - 1] == x);
            }
            assert forall|x: Point| t2.to_set().contains(x) implies t1.to_set().contains(x) by {
                let i = choose|i: int| 0 <= i < t2.len() && t2[i] == x;
                assert(point_before(s2[0], s2[i + 1]));
                assert(s1.to_set().contains(x));
                let j = choose|j: int| 0 <= j < s1.len() && s1[j] == x;
                if j == 0 {
                    assert(false);
                }
                assert(t1[j - 1] == x);
            }
        }
        lemma_ascending_unique(t1, t2);
        assert(s1 =~= s2) by {
            assert forall|i: int| 0 <= i < s1.len() implies s1[i] == s2[i] by {
                if i > 0 {
                    assert(t1[i - 1] == t2[i - 1]);
                }
            }
        }
    }
}

/// The points of `s`, ascending in `x`-major order.
pub open spec fn sorted_points(s: Set<Point>) -> Seq<Point> {
    choose|v: Seq<Point>| points_ascending(v) && v.to_set() == s
}

/// Car-state keys `(x, y, vx, vy)` obey the total order that ordered
/// collections assume.
pub open spec fn state_order_ok() -> bool {
    vstd::laws_cmp::obeys_cmp::<(i32, i32, i32, i32)>()
}

/// Car-state keys compare by the derived tuple order, a total order.
pub proof fn lemma_state_order()
    ensures
        state_order_ok(),
{
    broadcast use vstd::laws_cmp::group_laws_cmp;
}

/// Lap-search keys `(x, y, vx, vy, counter)` obey the total order that
/// ordered collections assume.
pub open spec fn lap_key_order_ok() -> bool {
    vstd::laws_cmp::obeys_cmp::<(i32, i32, i32, i32, i32)>()
}

/// Lap-search keys compare by the derived tuple order, a total order.
pub proof fn lemma_lap_key_order()
    ensures
        lap_key_order_ok(),
{
    broadcast use vstd::laws_cmp::group_laws_cmp;
}

} // verus!
