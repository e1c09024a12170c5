//! The fine corridor `D`: a bounding box of lattice cells, each drivable or
//! not.

use vstd::prelude::*;
use crate::geom::Point;

verus! {

/// A corridor: an axis-aligned box `[ox, ox + w) × [oy, oy + h)` of lattice
/// cells, each either drivable or not. Cells outside the box are never
/// drivable.
#[derive(Debug)]
pub struct Corridor {
    origin: Point,
    width: usize,
    height: usize,
    rows: Vec<Vec<bool>>,
}

/// The number of `true` entries of `s`.
pub open spec fn count_true(s: Seq<bool>) -> int
    decreases s.len(),
{
    if s.len() == 0 {
        0
    } else {
        count_true(s.drop_last()) + if s.last() { 1int } else { 0 }
    }
}

proof fn lemma_count_false_row(s: Seq<bool>)
    requires
        forall|i: int| 0 <= i < s.len() ==> !#[trigger] s[i],
    ensures
        count_true(s) == 0,
    decreases s.len(),
{
    if s.len() > 0 {
        lemma_count_false_row(s.drop_last());
    }
}

proof fn lemma_count_rows_zero(rows: Seq<Vec<bool>>)
    requires
        forall|j: int| 0 <= j < rows.len() ==> count_true((#[trigger] rows[j])@) == 0,
    ensures
        count_rows(rows) == 0,
    decreases rows.len(),
{
    if rows.len() > 0 {
        lemma_count_rows_zero(rows.drop_last());
        assert(count_true(rows[rows.len() - 1]@) == 0);
    }
}

/// The number of `true` entries over all rows.
pub open spec fn count_rows(rows: Seq<Vec<bool>>) -> int
    decreases rows.len(),
{
    if rows.len() == 0 {
        0
    } else {
        count_rows(rows.drop_last()) + count_true(rows.last()@)
    }
}

proof fn lemma_count_true_bounds(s: Seq<bool>)
    ensures
        0 <= count_true(s) <= s.len(),
    decreases s.len(),
{
    if s.len() > 0 {
        lemma_count_true_bounds(s.drop_last());
    }
}

proof fn lemma_count_true_update(s: Seq<bool>, i: int, b: bool)
    requires
        0 <= i < s.len(),
    ensures
        count_true(s.update(i, b)) == count_true(s) - (if s[i] { 1int } else { 0 }) + (if b { 1int } else { 0 }),
    decreases s.len(),
{
    let t = s.update(i, b);
    if i == s.len() - 1 {
        assert(t.drop_last() =~= s.drop_last());
    } else {
        lemma_count_true_update(s.drop_last(), i, b);
        assert(t.drop_last() =~= s.drop_last().update(i, b));
    }
}

proof fn lemma_count_rows_bounds(rows: Seq<Vec<bool>>, w: int)
    requires
        forall|j: int| 0 <= j < rows.len() ==> (#[trigger] rows[j])@.len() == w,
        w >= 0,
    ensures
        0 <= count_rows(rows) <= rows.len() * w,
    decreases rows.len(),
{
    if rows.len() > 0 {
        lemma_count_rows_bounds(rows.drop_last(), w);
        lemma_count_true_bounds(rows.last()@);
        assert((rows.len() - 1) * w + w == rows.len() * w) by (nonlinear_arith);
    }
}

proof fn lemma_count_rows_update(rows: Seq<Vec<bool>>, j: int, row: Vec<bool>)
    requires
        0 <= j < rows.len(),
    ensures
        count_rows(rows.update(j, row)) == count_rows(rows) - count_true(rows[j]@) + count_true(row@),
    decreases rows.len(),
{
    let t = rows.update(j, row);
    if j == rows.len() - 1 {
        assert(t.drop_last() =~= rows.drop_last());
    } else {
        lemma_count_rows_update(rows.drop_last(), j, row);
        assert(t.drop_last() =~= rows.drop_last().update(j, row));
    }
}

impl Clone for Corridor {
    fn clone(&self) -> (r: Self)
        ensures
            r.same_box(self),
            self.wf() ==> r.wf(),
            forall|p: Point| self.wf() ==> #[trigger] r.has(p) == self.has(p),
    {
        let mut rows: Vec<Vec<bool>> = Vec::new();
        let mut i: usize = 0;
        while i < self.rows.len()
            invariant
                i <= self.rows@.len(),
                rows@.len() == i,
                forall|j: int| 0 <= j < i ==> #[trigger] rows@[j]@ == self.rows@[j]@,
            decreases self.rows@.len() - i,
        {
            rows.push(self.rows[i].clone());
            i = i + 1;
        }
        let r = Corridor { origin: self.origin, width: self.width, height: self.height, rows };
        proof {
            if self.wf() {
                assert forall|j: int| 0 <= j < r.h() implies (#[trigger] r.rows@[j])@.len() == r.w() by {
                    assert(r.rows@[j]@ == self.rows@[j]@);
                }
                assert forall|p: Point| #[trigger] r.has(p) == self.has(p) by {
                    if r.in_box(p) {
                        assert(r.rows@[p.1 - r.oy()]@ == self.rows@[p.1 - r.oy()]@);
                    }
                }
            }
        }
        r
    }
}

impl Corridor {
    /// The box's minimum `x`.
    pub closed spec fn ox(&self) -> int {
        self.origin.0 as int
    }

    /// The box's minimum `y`.
    pub closed spec fn oy(&self) -> int {
        self.origin.1 as int
    }

    /// The box's width in cells.
    pub closed spec fn w(&self) -> int {
        self.width as int
    }

    /// The box's height in cells.
    pub closed spec fn h(&self) -> int {
        self.height as int
    }

    /// Whether cell `p` is drivable.
    pub closed spec fn has(&self, p: Point) -> bool {
        self.in_box(p) && self.rows@[p.1 - self.oy()]@[p.0 - self.ox()]
    }

    /// The number of drivable cells.
    pub closed spec fn count(&self) -> int {
        count_rows(self.rows@)
    }

    /// The drivable cells number at most the box's cells.
    pub proof fn lemma_count_bound(&self)
        requires
            self.wf(),
        ensures
            0 <= self.count() <= self.w() * self.h(),
    {
        lemma_count_rows_bounds(self.rows@, self.w());
        assert(self.h() * self.w() == self.w() * self.h()) by (nonlinear_arith);
    }

    /// Whether the cell storage matches the box.
    pub closed spec fn storage_ok(&self) -> bool {
        &&& self.rows@.len() == self.h()
        &&& forall|j: int| 0 <= j < self.h() ==> (#[trigger] self.rows@[j])@.len() == self.w()
    }

    /// Whether `p` lies inside the box.
    pub open spec fn in_box(&self, p: Point) -> bool {
        self.ox() <= p.0 < self.ox() + self.w() && self.oy() <= p.1 < self.oy() + self.h()
    }

    /// Whether `p` lies on the box's border (the outermost ring of box cells).
    pub open spec fn on_border(&self, p: Point) -> bool {
        self.in_box(p) && (p.0 == self.ox() || p.1 == self.oy() || p.0 == self.ox() + self.w() - 1
            || p.1 == self.oy() + self.h() - 1)
    }

    /// The box is non-empty and its cells are addressable as `i32` points.
    pub open spec fn wf(&self) -> bool {
        &&& self.w() >= 1
        &&& self.h() >= 1
        &&& self.ox() + self.w() <= i32::MAX + 1
        &&& self.oy() + self.h() <= i32::MAX + 1
        &&& self.storage_ok()
    }

    /// The set of drivable cells.
    pub open spec fn drivable(&self) -> Set<Point> {
        Set::new(|p: Point| self.has(p))
    }

    /// Whether `self` and `other` have the same box.
    pub open spec fn same_box(&self, other: &Corridor) -> bool {
        self.ox() == other.ox() && self.oy() == other.oy() && self.w() == other.w() && self.h()
            == other.h()
    }

    /// A drivable cell lies inside the box.
    /// The box's origin is an `i32` point.
    pub proof fn lemma_origin_range(&self)
        ensures
            i32::MIN <= self.ox() <= i32::MAX,
            i32::MIN <= self.oy() <= i32::MAX,
    {
    }

    pub broadcast proof fn lemma_has_in_box(&self, p: Point)
        ensures
            #[trigger] self.has(p) ==> self.in_box(p),
    {
    }

    /// An all-non-drivable corridor over `[origin, origin + (width, height))`.
    pub fn new(origin: Point, width: usize, height: usize) -> (d: Corridor)
        requires
            width >= 1,
            height >= 1,
            origin.0 + width <= i32::MAX + 1,
            origin.1 + height <= i32::MAX + 1,
        ensures
            d.wf(),
            d.ox() == origin.0,
            d.oy() == origin.1,
            d.w() == width,
            d.h() == height,
            forall|p: Point| !#[trigger] d.has(p),
            d.count() == 0,
    {
        let d = Self::with_value(origin, width, height, false);
        proof {
            assert forall|j: int| 0 <= j < d.rows@.len() implies count_true((#[trigger] d.rows@[j])@) == 0 by {
                assert forall|i: int| 0 <= i < d.rows@[j]@.len() implies !#[trigger] d.rows@[j]@[i] by {}
                lemma_count_false_row(d.rows@[j]@);
            }
            lemma_count_rows_zero(d.rows@);
        }
        d
    }

    /// An all-drivable corridor over `[origin, origin + (width, height))`.
    pub fn filled(origin: Point, width: usize, height: usize) -> (d: Corridor)
        requires
            width >= 1,
            height >= 1,
            origin.0 + width <= i32::MAX + 1,
            origin.1 + height <= i32::MAX + 1,
        ensures
            d.wf(),
            d.ox() == origin.0,
            d.oy() == origin.1,
            d.w() == width,
            d.h() == height,
            forall|p: Point| #[trigger] d.has(p) == d.in_box(p),
    {
        Self::with_value(origin, width, height, true)
    }

    fn with_value(origin: Point, width: usize, height: usize, v: bool) -> (d: Corridor)
        requires
            width >= 1,
            height >= 1,
            origin.0 + width <= i32::MAX + 1,
            origin.1 + height <= i32::MAX + 1,
        ensures
            d.wf(),
            d.ox() == origin.0,
            d.oy() == origin.1,
            d.w() == width,
            d.h() == height,
            forall|p: Point| #[trigger] d.has(p) == (d.in_box(p) && v),
            forall|j: int, i: int| 0 <= j < d.rows@.len() && 0 <= i < d.rows@[j]@.len() ==> #[trigger] d.rows@[j]@[i] == v,
    {
        let mut row: Vec<bool> = Vec::new();
        let mut i: usize = 0;
        while i < width
            invariant
                i <= width,
                row@.len() == i,
                forall|j: int| 0 <= j < i ==> row@[j] == v,
            decreases width - i,
        {
            row.push(v);
            i = i + 1;
        }
        let mut rows: Vec<Vec<bool>> = Vec::new();
        let mut j: usize = 0;
        while j < height
            invariant
                j <= height,
                row@.len() == width,
                forall|a: int| 0 <= a < width ==> row@[a] == v,
                rows@.len() == j,
                forall|b: int| 0 <= b < j ==> (#[trigger] rows@[b])@ == row@,
            decreases height - j,
        {
            rows.push(row.clone());
            j = j + 1;
        }
        Corridor { origin, width, height, rows }
    }

    /// The box's minimum corner.
    pub fn origin(&self) -> (r: Point)
        ensures
            r.0 == self.ox(),
            r.1 == self.oy(),
    {
        self.origin
    }

    /// The box's width in cells.
    pub fn width(&self) -> (r: usize)
        ensures
            r == self.w(),
    {
        self.width
    }

    /// The box's height in cells.
    pub fn height(&self) -> (r: usize)
        ensures
            r == self.h(),
    {
        self.height
    }

    /// Whether `p` lies inside the box.
    pub fn box_contains(&self, p: Point) -> (r: bool)
        requires
            self.wf(),
        ensures
            r == self.in_box(p),
    {
        let ox = self.origin.0 as i64;
        let oy = self.origin.1 as i64;
        let x = p.0 as i64;
        let y = p.1 as i64;
        ox <= x && x < ox + self.width as i64 && oy <= y && y < oy + self.height as i64
    }

    /// Whether cell `p` is drivable (`false` outside the box).
    pub fn contains(&self, p: Point) -> (r: bool)
        requires
            self.wf(),
        ensures
            r == self.has(p),
    {
        if self.box_contains(p) {
            let dx = (p.0 as i64 - self.origin.0 as i64) as usize;
            let dy = (p.1 as i64 - self.origin.1 as i64) as usize;
            self.rows[dy][dx]
        } else {
            false
        }
    }

    /// The same drivable cells in a box grown by `pad` cells on every side.
    pub fn padded(&self, pad: usize) -> (r: Corridor)
        requires
            self.wf(),
            self.ox() - pad >= i32::MIN,
            self.oy() - pad >= i32::MIN,
            self.ox() + self.w() + pad <= i32::MAX + 1,
            self.oy() + self.h() + pad <= i32::MAX + 1,
            self.w() + 2 * pad <= usize::MAX,
            self.h() + 2 * pad <= usize::MAX,
        ensures
            r.wf(),
            r.ox() == self.ox() - pad,
            r.oy() == self.oy() - pad,
            r.w() == self.w() + 2 * pad,
            r.h() == self.h() + 2 * pad,
            forall|q: Point| #[trigger] r.has(q) == self.has(q),
    {
        let ox = self.origin.0;
        let oy = self.origin.1;
        let nx = (ox as i64 - pad as i64) as i32;
        let ny = (oy as i64 - pad as i64) as i32;
        let mut r = Corridor::new((nx, ny), self.width + 2 * pad, self.height + 2 * pad);
        let mut j: usize = 0;
        while j < self.height
            invariant
                self.wf(),
                r.wf(),
                j <= self.h(),
                ox == self.ox() && oy == self.oy(),
                r.ox() == self.ox() - pad && r.oy() == self.oy() - pad,
                r.w() == self.w() + 2 * pad && r.h() == self.h() + 2 * pad,
                forall|q: Point| #[trigger] r.has(q) == (self.has(q) && q.1 < oy + j),
            decreases self.h() - j,
        {
            let mut i: usize = 0;
            while i < self.width
                invariant
                    self.wf(),
                    r.wf(),
                    i <= self.w(),
                    j < self.h(),
                    ox == self.ox() && oy == self.oy(),
                    r.ox() == self.ox() - pad && r.oy() == self.oy() - pad,
                    r.w() == self.w() + 2 * pad && r.h() == self.h() + 2 * pad,
                    forall|q: Point| #[trigger] r.has(q) == (self.has(q) && (q.1 < oy + j || (q.1 == oy + j && q.0 < ox + i))),
                decreases self.w() - i,
            {
                let p: Point = ((ox as i64 + i as i64) as i32, (oy as i64 + j as i64) as i32);
                if self.contains(p) {
                    r.set(p, true);
                }
                i = i + 1;
            }
            j = j + 1;
        }
        r
    }

    /// The least drivable cell — the lowest one of the leftmost column that
    /// holds any — or `None` when no cell is drivable.
    pub fn first_drivable(&self) -> (r: Option<Point>)
        requires
            self.wf(),
        ensures
            r is None <==> forall|q: Point| !#[trigger] self.has(q),
            r matches Some(p) ==> self.has(p) && forall|q: Point| #[trigger] self.has(q) ==> p.0 < q.0 || (p.0 == q.0 && p.1 <= q.1),
    {
        let ox = self.origin.0;
        let oy = self.origin.1;
        let mut i: usize = 0;
        while i < self.width
            invariant
                self.wf(),
                i <= self.w(),
                ox == self.ox() && oy == self.oy(),
                forall|q: Point| #[trigger] self.has(q) ==> q.0 >= ox + i,
            decreases self.w() - i,
        {
            let mut j: usize = 0;
            while j < self.height
                invariant
                    self.wf(),
                    i < self.w(),
                    j <= self.h(),
                    ox == self.ox() && oy == self.oy(),
                    forall|q: Point| #[trigger] self.has(q) ==> q.0 >= ox + i,
                    forall|q: Point| #[trigger] self.has(q) && q.0 == ox + i ==> q.1 >= oy + j,
                decreases self.h() - j,
            {
                let p: Point = ((ox as i64 + i as i64) as i32, (oy as i64 + j as i64) as i32);
                if self.contains(p) {
                    return Some(p);
                }
                j = j + 1;
            }
            i = i + 1;
        }
        None
    }

    /// Marks cell `p` drivable (`v == true`) or not; a no-op for a cell
    /// outside the box.
    pub fn set(&mut self, p: Point, v: bool)
        requires
            old(self).wf(),
        ensures
            final(self).wf(),
            final(self).same_box(old(self)),
            forall|q: Point| #[trigger] final(self).has(q) == if q == p && old(self).in_box(p) {
                v
            } else {
                old(self).has(q)
            },
            final(self).count() == old(self).count() - (if old(self).has(p) { 1int } else { 0 }) + (if old(self).in_box(p) && v { 1int } else { 0 }),
    {
        if self.box_contains(p) {
            let dx = (p.0 as i64 - self.origin.0 as i64) as usize;
            let dy = (p.1 as i64 - self.origin.1 as i64) as usize;
            let mut row = self.rows[dy].clone();
            proof {
                assert(row@.len() == old(self).w());
            }
            row.set(dx, v);
            proof {
                lemma_count_true_update(old(self).rows@[dy as int]@, dx as int, v);
                lemma_count_rows_update(old(self).rows@, dy as int, row);
            }
            self.rows.set(dy, row);
            proof {
                assert forall|j: int| 0 <= j < self.h() implies (#[trigger] self.rows@[j])@.len() == self.w() by {
                    if j != dy {
                        assert(self.rows@[j] == old(self).rows@[j]);
                    }
                }
                assert forall|q: Point| #[trigger] self.has(q) == if q == p && old(self).in_box(p) {
                    v
                } else {
                    old(self).has(q)
                } by {
                    if self.in_box(q) && q != p {
                        if q.1 != p.1 {
                            assert(self.rows@[q.1 - self.oy()] == old(self).rows@[q.1 - self.oy()]);
                        }
                    }
                }
            }
        }
    }
}

} // verus!
