//! The passability floods' bookkeeping: a breadth-first search over car
//! states inside the velocity box. Which moves are legal is reported to the
//! flood state by state (the forward flood reports a state's legal
//! successors, the backward flood its legal predecessors); the flood
//! decides what is new, which state is expanded next, and when it is done.

use vstd::prelude::*;
use std::collections::BTreeSet;
use crate::kinematics::{sat_neg, within_v_ceil, CarState};
use crate::order::{lap_key_order_ok, lemma_lap_key_order, lemma_state_order, state_order_ok};

verus! {

broadcast use vstd::std_specs::btree::group_btree_axioms;

/// Whether `s`'s velocity lies within the box `|vx|, |vy| ≤ v_ceil` (the
/// floor saturating, as [`within_v_ceil`] computes it).
pub open spec fn in_ceiling(s: CarState, v_ceil: int) -> bool {
    sat_neg(v_ceil) <= s.vx <= v_ceil && sat_neg(v_ceil) <= s.vy <= v_ceil
}

/// A state as plain integers, the order the visited set keeps.
pub open spec fn state_key(s: CarState) -> (i32, i32, i32, i32) {
    (s.x, s.y, s.vx, s.vy)
}

/// `order` extended by each state of `found` that lies in the box and is
/// not in it yet, in `found`'s order, each once.
pub open spec fn absorb(order: Seq<CarState>, found: Seq<CarState>, v_ceil: int) -> Seq<CarState>
    decreases found.len(),
{
    if found.len() == 0 {
        order
    } else {
        let prev = absorb(order, found.drop_last(), v_ceil);
        let s = found.last();
        if in_ceiling(s, v_ceil) && !prev.contains(s) {
            prev.push(s)
        } else {
            prev
        }
    }
}

/// The discovery order after the seeds and then each report in turn.
pub open spec fn discovered(seeds: Seq<CarState>, reports: Seq<Seq<CarState>>, v_ceil: int) -> Seq<CarState>
    decreases reports.len(),
{
    if reports.len() == 0 {
        absorb(Seq::empty(), seeds, v_ceil)
    } else {
        absorb(discovered(seeds, reports.drop_last(), v_ceil), reports.last(), v_ceil)
    }
}

/// The flood as plain values.
pub struct FloodView {
    /// The velocity ceiling.
    pub v_ceil: int,
    /// The seeds the flood started from, as given.
    pub seeds: Seq<CarState>,
    /// Every state found so far, in discovery order.
    pub order: Seq<CarState>,
    /// The reports received, one per expanded state: `reports[i]` is what
    /// was reported for `order[i]`.
    pub reports: Seq<Seq<CarState>>,
}

impl FloodView {
    /// The number of states expanded so far (the first ones of `order`).
    pub open spec fn expanded(self) -> int {
        self.reports.len() as int
    }

    /// Every state found has been expanded.
    pub open spec fn done(self) -> bool {
        self.expanded() == self.order.len()
    }

    /// The flood is a breadth-first search: the discovery order is the
    /// seeds and reports absorbed in turn, and the states are expanded in
    /// that order.
    pub open spec fn wf(self) -> bool {
        &&& self.order == discovered(self.seeds, self.reports, self.v_ceil)
        &&& self.expanded() <= self.order.len()
    }
}

/// A breadth-first flood over car states within a velocity ceiling.
pub struct Flood {
    v_ceil: i32,
    order: Vec<CarState>,
    seen: BTreeSet<(i32, i32, i32, i32)>,
    expanded: usize,
    seeds: Ghost<Seq<CarState>>,
    reports: Ghost<Seq<Seq<CarState>>>,
}

impl View for Flood {
    type V = FloodView;

    closed spec fn view(&self) -> FloodView {
        FloodView { v_ceil: self.v_ceil as int, seeds: self.seeds@, order: self.order@, reports: self.reports@ }
    }
}

/// `key` is the key of some state of `order`.
pub open spec fn keyed(order: Seq<CarState>, key: (i32, i32, i32, i32)) -> bool {
    exists|i: int| 0 <= i < order.len() && #[trigger] state_key(order[i]) == key
}

/// A state is found exactly when its key is.
proof fn lemma_keyed_contains(order: Seq<CarState>, s: CarState)
    ensures
        keyed(order, state_key(s)) <==> order.contains(s),
{
    if keyed(order, state_key(s)) {
        let i = choose|i: int| 0 <= i < order.len() && #[trigger] state_key(order[i]) == state_key(s);
        assert(order[i] == s);
    }
    if order.contains(s) {
        let i = choose|i: int| 0 <= i < order.len() && order[i] == s;
        assert(state_key(order[i]) == state_key(s));
    }
}

impl Flood {
    /// The internal bookkeeping matches the view: the visited keys are the
    /// found states', and the expanded count is the number of reports.
    closed spec fn inv(&self) -> bool {
        &&& forall|key: (i32, i32, i32, i32)| #[trigger] self.seen@.contains(key) <==> keyed(self.order@, key)
        &&& self.expanded as int == self.reports@.len()
        &&& state_order_ok()
    }

    /// Whether the flood is consistent.
    pub closed spec fn wf(&self) -> bool {
        self.inv() && self@.wf()
    }

    /// Adds each state of `found` that lies in the box and is new, in order.
    fn absorb_all(&mut self, found: &Vec<CarState>)
        requires
            old(self).inv(),
        ensures
            final(self).order@ == absorb(old(self).order@, found@, old(self).v_ceil as int),
            forall|key: (i32, i32, i32, i32)| #[trigger] final(self).seen@.contains(key) <==> keyed(final(self).order@, key),
            final(self).v_ceil == old(self).v_ceil,
            final(self).expanded == old(self).expanded,
            final(self).seeds == old(self).seeds,
            final(self).reports == old(self).reports,
    {
        let ghost start = self.order@;
        let mut i: usize = 0;
        while i < found.len()
            invariant
                i <= found.len(),
                self.order@ == absorb(start, found@.take(i as int), self.v_ceil as int),
                forall|key: (i32, i32, i32, i32)| #[trigger] self.seen@.contains(key) <==> keyed(self.order@, key),
                state_order_ok(),
                self.v_ceil == old(self).v_ceil,
                self.expanded == old(self).expanded,
                self.seeds == old(self).seeds,
                self.reports == old(self).reports,
                start == old(self).order@,
            decreases found.len() - i,
        {
            let s = found[i];
            let key = (s.x, s.y, s.vx, s.vy);
            let ghost prev = self.order@;
            proof {
                assert(found@.take(i + 1).drop_last() == found@.take(i as int));
                assert(found@.take(i + 1).last() == s);
                lemma_keyed_contains(prev, s);
            }
            if within_v_ceil(s, self.v_ceil) && !self.seen.contains(&key) {
                self.seen.insert(key);
                self.order.push(s);
                proof {
                    assert forall|k: (i32, i32, i32, i32)| #[trigger] self.seen@.contains(k) <==> keyed(self.order@, k) by {
                        if keyed(prev, k) {
                            let j = choose|j: int| 0 <= j < prev.len() && #[trigger] state_key(prev[j]) == k;
                            assert(state_key(self.order@[j]) == k);
                        }
                        if keyed(self.order@, k) {
                            let j = choose|j: int| 0 <= j < self.order@.len() && #[trigger] state_key(self.order@[j]) == k;
                            if j < prev.len() {
                                assert(state_key(prev[j]) == k);
                            }
                        }
                        if k == key {
                            assert(state_key(self.order@[prev.len() as int]) == k);
                        }
                    }
                }
            }
            i = i + 1;
        }
        proof {
            assert(found@.take(found@.len() as int) == found@);
        }
    }

    /// A flood from `seeds` within `v_ceil`: the seeds in the box, in
    /// order, each once, and nothing expanded yet.
    pub fn new(seeds: &Vec<CarState>, v_ceil: i32) -> (r: Flood)
        ensures
            r.wf(),
            r@.v_ceil == v_ceil as int,
            r@.seeds == seeds@,
            r@.reports == Seq::<Seq<CarState>>::empty(),
            r@.order == absorb(Seq::empty(), seeds@, v_ceil as int),
    {
        let mut f = Flood {
            v_ceil,
            order: Vec::new(),
            seen: BTreeSet::new(),
            expanded: 0,
            seeds: Ghost(seeds@),
            reports: Ghost(Seq::empty()),
        };
        proof {
            lemma_state_order();
            assert(f.order@ == Seq::<CarState>::empty());
        }
        f.absorb_all(seeds);
        f
    }

    /// The next state to expand, or `None` once every state found has been.
    pub fn next_state(&self) -> (r: Option<CarState>)
        requires
            self.wf(),
        ensures
            r == (if self@.done() { None } else { Some(self@.order[self@.expanded()]) }),
    {
        if self.expanded < self.order.len() {
            Some(self.order[self.expanded])
        } else {
            None
        }
    }

    /// Expands the next state with `found`, what was reported for it: the
    /// legal successors in the forward flood, the legal predecessors in the
    /// backward one. The new states of `found` that lie in the box join
    /// the end of the discovery order.
    pub fn expand(&mut self, found: &Vec<CarState>)
        requires
            old(self).wf(),
            !old(self)@.done(),
        ensures
            final(self).wf(),
            final(self)@.v_ceil == old(self)@.v_ceil,
            final(self)@.seeds == old(self)@.seeds,
            final(self)@.reports == old(self)@.reports.push(found@),
            final(self)@.order == absorb(old(self)@.order, found@, old(self)@.v_ceil),
    {
        let ghost reports = self.reports@.push(found@);
        proof {
            lemma_absorb_grows(self.order@, found@, self.v_ceil as int);
            assert(reports.drop_last() =~= self.reports@);
        }
        self.absorb_all(found);
        let found_count = self.order.len();
        assert(self.expanded < found_count);
        self.expanded = self.expanded + 1;
        self.reports = Ghost(reports);
    }

    /// The states found, in discovery order.
    pub fn states(&self) -> (r: Vec<CarState>)
        requires
            self.wf(),
        ensures
            r@ == self@.order,
    {
        self.order.clone()
    }
}

/// Absorbing only appends: what was found stays, in place.
pub proof fn lemma_absorb_grows(order: Seq<CarState>, found: Seq<CarState>, v_ceil: int)
    ensures
        absorb(order, found, v_ceil).len() >= order.len(),
        absorb(order, found, v_ceil).subrange(0, order.len() as int) == order,
    decreases found.len(),
{
    if found.len() > 0 {
        lemma_absorb_grows(order, found.drop_last(), v_ceil);
        let prev = absorb(order, found.drop_last(), v_ceil);
        assert(prev.push(found.last()).subrange(0, order.len() as int) == prev.subrange(0, order.len() as int));
    }
}

/// What absorbing keeps and adds: the states already found, and every
/// state of `found` in the box; nothing is found twice.
pub proof fn lemma_absorb(order: Seq<CarState>, found: Seq<CarState>, v_ceil: int)
    ensures
        forall|s: CarState| #[trigger] absorb(order, found, v_ceil).contains(s) <==> (order.contains(s) || (found.contains(s)
            && in_ceiling(s, v_ceil))),
        order.no_duplicates() ==> absorb(order, found, v_ceil).no_duplicates(),
    decreases found.len(),
{
    if found.len() > 0 {
        let rest = found.drop_last();
        lemma_absorb(order, rest, v_ceil);
        let prev = absorb(order, rest, v_ceil);
        let last = found.last();
        assert forall|s: CarState| found.contains(s) <==> (rest.contains(s) || s == last) by {
            if found.contains(s) {
                let i = choose|i: int| 0 <= i < found.len() && found[i] == s;
                if i < found.len() - 1 {
                    assert(rest[i] == s);
                }
            }
            if rest.contains(s) {
                let i = choose|i: int| 0 <= i < rest.len() && rest[i] == s;
                assert(found[i] == s);
            }
            if s == last {
                assert(found[found.len() - 1] == s);
            }
        }
        if in_ceiling(last, v_ceil) && !prev.contains(last) {
            assert forall|s: CarState| #[trigger] prev.push(last).contains(s) <==> (prev.contains(s) || s == last) by {
                if prev.push(last).contains(s) {
                    let i = choose|i: int| 0 <= i < prev.push(last).len() && prev.push(last)[i] == s;
                    if i < prev.len() {
                        assert(prev[i] == s);
                    }
                }
                if prev.contains(s) {
                    let i = choose|i: int| 0 <= i < prev.len() && prev[i] == s;
                    assert(prev.push(last)[i] == s);
                }
                if s == last {
                    assert(prev.push(last)[prev.len() as int] == s);
                }
            }
        }
    }
}

/// The states a flood has found are exactly the seeds and reported states
/// that lie in the box, each found once.
pub proof fn lemma_discovered(seeds: Seq<CarState>, reports: Seq<Seq<CarState>>, v_ceil: int)
    ensures
        discovered(seeds, reports, v_ceil).no_duplicates(),
        forall|s: CarState| #[trigger] discovered(seeds, reports, v_ceil).contains(s) <==> in_ceiling(s, v_ceil) && (seeds.contains(
            s) || exists|i: int| 0 <= i < reports.len() && #[trigger] reports[i].contains(s)),
    decreases reports.len(),
{
    if reports.len() == 0 {
        lemma_absorb(Seq::empty(), seeds, v_ceil);
    } else {
        let rest = reports.drop_last();
        lemma_discovered(seeds, rest, v_ceil);
        let prev = discovered(seeds, rest, v_ceil);
        lemma_absorb(prev, reports.last(), v_ceil);
        assert forall|s: CarState| #[trigger] discovered(seeds, reports, v_ceil).contains(s) <==> in_ceiling(s, v_ceil) && (
            seeds.contains(s) || exists|i: int| 0 <= i < reports.len() && #[trigger] reports[i].contains(s)) by {
            if exists|i: int| 0 <= i < reports.len() && #[trigger] reports[i].contains(s) {
                let i = choose|i: int| 0 <= i < reports.len() && #[trigger] reports[i].contains(s);
                if i < reports.len() - 1 {
                    assert(rest[i].contains(s));
                }
            }
            if exists|i: int| 0 <= i < rest.len() && #[trigger] rest[i].contains(s) {
                let i = choose|i: int| 0 <= i < rest.len() && #[trigger] rest[i].contains(s);
                assert(reports[i].contains(s));
            }
        }
    }
}

/// A finished flood holds exactly the least set of states that contains
/// the seeds in the box and, with every state, what was reported for it in
/// the box: each state found once, every state expanded, and nothing found
/// that is neither such a seed nor reported for an expanded state.
pub proof fn lemma_finished_flood_is_least_closed(v: FloodView)
    requires
        v.wf(),
        v.done(),
    ensures
        v.order.no_duplicates(),
        forall|s: CarState| #[trigger] v.seeds.contains(s) && in_ceiling(s, v.v_ceil) ==> v.order.contains(s),
        forall|i: int, s: CarState|
            0 <= i < v.order.len() && #[trigger] v.reports[i].contains(s) && in_ceiling(s, v.v_ceil) ==> v.order.contains(s),
        forall|s: CarState| #[trigger] v.order.contains(s) ==> in_ceiling(s, v.v_ceil) && (v.seeds.contains(s) || exists|i: int|
            0 <= i < v.order.len() && #[trigger] v.reports[i].contains(s)),
{
    lemma_discovered(v.seeds, v.reports, v.v_ceil);
}

/// The lap counter as the lap search keys it: clamped into `[-1, 0]`
/// (`-1` until the start line is crossed, then `0`).
pub open spec fn counter_key(raw: int) -> int {
    if raw < -1 {
        -1
    } else if raw > 0 {
        0
    } else {
        raw
    }
}

/// A lap-search node `(state, counter, lap counter)` as plain integers: the
/// state and the clamped counter.
pub open spec fn node_key<T>(n: (CarState, i32, T)) -> (i32, i32, i32, i32, i32) {
    (n.0.x, n.0.y, n.0.vx, n.0.vy, counter_key(n.1 as int) as i32)
}

/// Some node of `order` has key `k`.
pub open spec fn has_key<T>(order: Seq<(CarState, i32, T)>, k: (i32, i32, i32, i32, i32)) -> bool {
    exists|i: int| 0 <= i < order.len() && #[trigger] node_key(order[i]) == k
}

/// No two nodes of `order` share a key.
pub open spec fn keys_distinct<T>(order: Seq<(CarState, i32, T)>) -> bool {
    forall|i: int, j: int| 0 <= i < j < order.len() ==> node_key(#[trigger] order[i]) != node_key(#[trigger] order[j])
}

/// A move to `n` closes a lap: it stays in the box and its counter
/// reached one.
pub open spec fn closes_lap<T>(n: (CarState, i32, T), v_ceil: int) -> bool {
    in_ceiling(n.0, v_ceil) && n.1 >= 1
}

/// `order` extended by each node of `found` in the box whose key is new, in
/// `found`'s order. With `check`, the first node in the box that closes a
/// lap stops the absorption, and the flag says so.
pub open spec fn lap_absorb<T>(order: Seq<(CarState, i32, T)>, found: Seq<(CarState, i32, T)>, v_ceil: int, check: bool) -> (
    Seq<(CarState, i32, T)>,
    bool,
)
    decreases found.len(),
{
    if found.len() == 0 {
        (order, false)
    } else {
        let prev = lap_absorb(order, found.drop_last(), v_ceil, check);
        let n = found.last();
        if prev.1 {
            prev
        } else if !in_ceiling(n.0, v_ceil) {
            prev
        } else if check && n.1 >= 1 {
            (prev.0, true)
        } else if has_key(prev.0, node_key(n)) {
            prev
        } else {
            (prev.0.push(n), false)
        }
    }
}

/// The lap search's nodes after the starts and then each report in turn,
/// and whether a lap was closed; nothing is absorbed after a lap closes.
pub open spec fn lap_discovered<T>(starts: Seq<(CarState, i32, T)>, reports: Seq<Seq<(CarState, i32, T)>>, v_ceil: int) -> (
    Seq<(CarState, i32, T)>,
    bool,
)
    decreases reports.len(),
{
    if reports.len() == 0 {
        lap_absorb(Seq::empty(), starts, v_ceil, false)
    } else {
        let prev = lap_discovered(starts, reports.drop_last(), v_ceil);
        if prev.1 {
            prev
        } else {
            lap_absorb(prev.0, reports.last(), v_ceil, true)
        }
    }
}

/// The lap search as plain values.
pub struct LapSearchView<T> {
    /// The velocity ceiling.
    pub v_ceil: int,
    /// The start nodes, as given.
    pub starts: Seq<(CarState, i32, T)>,
    /// Every node found so far, in discovery order.
    pub order: Seq<(CarState, i32, T)>,
    /// The reports received, one per expanded node: `reports[i]` holds the
    /// moves reported for `order[i]`.
    pub reports: Seq<Seq<(CarState, i32, T)>>,
    /// Whether a reported move closed a lap.
    pub lap_found: bool,
}

impl<T> LapSearchView<T> {
    /// The search is a breadth-first search that stops at the first move
    /// closing a lap.
    pub open spec fn wf(self) -> bool {
        &&& (self.order, self.lap_found) == lap_discovered(self.starts, self.reports, self.v_ceil)
        &&& self.reports.len() <= self.order.len()
    }

    /// The verdict, once there is one: a lap closed, or every node expanded
    /// without one.
    pub open spec fn outcome(self) -> Option<bool> {
        if self.lap_found {
            Some(true)
        } else if self.reports.len() == self.order.len() {
            Some(false)
        } else {
            None
        }
    }
}

/// A breadth-first search over `(state, lap counter)` nodes for a move that
/// closes a lap, within a velocity ceiling. `T` is the lap counter itself,
/// carried for the caller; the search reads its value as an integer.
pub struct LapSearch<T> {
    v_ceil: i32,
    order: Vec<(CarState, i32, T)>,
    seen: BTreeSet<(i32, i32, i32, i32, i32)>,
    expanded: usize,
    lap_found: bool,
    starts: Ghost<Seq<(CarState, i32, T)>>,
    reports: Ghost<Seq<Seq<(CarState, i32, T)>>>,
}

impl<T> View for LapSearch<T> {
    type V = LapSearchView<T>;

    closed spec fn view(&self) -> LapSearchView<T> {
        LapSearchView {
            v_ceil: self.v_ceil as int,
            starts: self.starts@,
            order: self.order@,
            reports: self.reports@,
            lap_found: self.lap_found,
        }
    }
}

/// Once a lap closes, absorbing more of `found` changes nothing.
proof fn lemma_lap_hit_stays<T>(order: Seq<(CarState, i32, T)>, found: Seq<(CarState, i32, T)>, i: int, n: int, v_ceil: int, check: bool)
    requires
        0 <= i <= n <= found.len(),
        lap_absorb(order, found.take(i), v_ceil, check).1,
    ensures
        lap_absorb(order, found.take(n), v_ceil, check) == lap_absorb(order, found.take(i), v_ceil, check),
    decreases n - i,
{
    if n > i {
        lemma_lap_hit_stays(order, found, i, n - 1, v_ceil, check);
        assert(found.take(n).drop_last() == found.take(n - 1));
    }
}

impl<T: Copy> LapSearch<T> {
    /// The internal bookkeeping matches the view.
    closed spec fn inv(&self) -> bool {
        &&& forall|k: (i32, i32, i32, i32, i32)| #[trigger] self.seen@.contains(k) <==> has_key(self.order@, k)
        &&& self.expanded as int == self.reports@.len()
        &&& lap_key_order_ok()
    }

    /// Whether the search is consistent.
    pub closed spec fn wf(&self) -> bool {
        self.inv() && self@.wf()
    }

    /// Adds the nodes of `found` as [`lap_absorb`] says.
    fn absorb_nodes(&mut self, found: &Vec<(CarState, i32, T)>, check: bool)
        requires
            old(self).inv(),
            !old(self).lap_found,
        ensures
            (final(self).order@, final(self).lap_found) == lap_absorb(old(self).order@, found@, old(self).v_ceil as int, check),
            forall|k: (i32, i32, i32, i32, i32)| #[trigger] final(self).seen@.contains(k) <==> has_key(final(self).order@, k),
            final(self).v_ceil == old(self).v_ceil,
            final(self).expanded == old(self).expanded,
            final(self).starts == old(self).starts,
            final(self).reports == old(self).reports,
    {
        let ghost start = self.order@;
        let mut i: usize = 0;
        while i < found.len() && !self.lap_found
            invariant
                i <= found.len(),
                (self.order@, self.lap_found) == lap_absorb(start, found@.take(i as int), self.v_ceil as int, check),
                forall|k: (i32, i32, i32, i32, i32)| #[trigger] self.seen@.contains(k) <==> has_key(self.order@, k),
                lap_key_order_ok(),
                self.v_ceil == old(self).v_ceil,
                self.expanded == old(self).expanded,
                self.starts == old(self).starts,
                self.reports == old(self).reports,
                start == old(self).order@,
            decreases found.len() - i,
        {
            let n = found[i];
            let (s, raw, _counter) = n;
            let ghost prev = self.order@;
            proof {
                assert(found@.take(i + 1).drop_last() == found@.take(i as int));
                assert(found@.take(i + 1).last() == n);
            }
            if within_v_ceil(s, self.v_ceil) {
                if check && raw >= 1 {
                    self.lap_found = true;
                } else {
                    let c: i32 = if raw < -1 {
                        -1
                    } else if raw > 0 {
                        0
                    } else {
                        raw
                    };
                    let key = (s.x, s.y, s.vx, s.vy, c);
                    assert(key == node_key(n));
                    if !self.seen.contains(&key) {
                        self.seen.insert(key);
                        self.order.push(n);
                        proof {
                            assert forall|k: (i32, i32, i32, i32, i32)| #[trigger] self.seen@.contains(k) <==> has_key(self.order@, k) by {
                                if has_key(prev, k) {
                                    let j = choose|j: int| 0 <= j < prev.len() && #[trigger] node_key(prev[j]) == k;
                                    assert(node_key(self.order@[j]) == k);
                                }
                                if has_key(self.order@, k) {
                                    let j = choose|j: int| 0 <= j < self.order@.len() && #[trigger] node_key(self.order@[j]) == k;
                                    if j < prev.len() {
                                        assert(node_key(prev[j]) == k);
                                    }
                                }
                                if k == key {
                                    assert(node_key(self.order@[prev.len() as int]) == k);
                                }
                            }
                        }
                    }
                }
            }
            i = i + 1;
        }
        proof {
            if self.lap_found {
                lemma_lap_hit_stays(start, found@, i as int, found@.len() as int, self.v_ceil as int, check);
            }
            assert(found@.take(found@.len() as int) == found@);
        }
    }

    /// A search from `starts` within `v_ceil`: the start nodes in the box,
    /// in order, one per key, nothing expanded and no lap yet.
    pub fn new(starts: &Vec<(CarState, i32, T)>, v_ceil: i32) -> (r: LapSearch<T>)
        ensures
            r.wf(),
            r@.v_ceil == v_ceil as int,
            r@.starts == starts@,
            r@.reports == Seq::<Seq<(CarState, i32, T)>>::empty(),
            (r@.order, r@.lap_found) == lap_absorb(Seq::empty(), starts@, v_ceil as int, false),
    {
        let mut search = LapSearch {
            v_ceil,
            order: Vec::new(),
            seen: BTreeSet::new(),
            expanded: 0,
            lap_found: false,
            starts: Ghost(starts@),
            reports: Ghost(Seq::empty()),
        };
        proof {
            lemma_lap_key_order();
            assert(search.order@ == Seq::<(CarState, i32, T)>::empty());
        }
        search.absorb_nodes(starts, false);
        proof {
            lemma_lap_absorb_grows(Seq::empty(), starts@, v_ceil as int, false);
        }
        search
    }

    /// The next node to expand, its state and lap counter; `None` once the
    /// search has a verdict.
    pub fn next_node(&self) -> (r: Option<(CarState, T)>)
        requires
            self.wf(),
        ensures
            r matches Some(n) ==> self@.outcome() is None && n == (self@.order[self@.reports.len() as int].0,
                self@.order[self@.reports.len() as int].2),
            r is None ==> self@.outcome() is Some,
    {
        if !self.lap_found && self.expanded < self.order.len() {
            let (s, _raw, counter) = self.order[self.expanded];
            Some((s, counter))
        } else {
            None
        }
    }

    /// Expands the next node with `found`, the legal moves from it, each
    /// with the moved counter's value and the counter itself.
    pub fn expand(&mut self, found: &Vec<(CarState, i32, T)>)
        requires
            old(self).wf(),
            old(self)@.outcome() is None,
        ensures
            final(self).wf(),
            final(self)@.v_ceil == old(self)@.v_ceil,
            final(self)@.starts == old(self)@.starts,
            final(self)@.reports == old(self)@.reports.push(found@),
            (final(self)@.order, final(self)@.lap_found) == lap_absorb(old(self)@.order, found@, old(self)@.v_ceil, true),
    {
        let ghost reports = self.reports@.push(found@);
        proof {
            lemma_lap_absorb_grows(self.order@, found@, self.v_ceil as int, true);
            assert(reports.drop_last() =~= self.reports@);
        }
        self.absorb_nodes(found, true);
        let found_count = self.order.len();
        assert(self.expanded < found_count);
        self.expanded = self.expanded + 1;
        self.reports = Ghost(reports);
    }

    /// The search's result: `Some(true)` when a move has closed a lap,
    /// `Some(false)` when every node was expanded without one, else `None`.
    pub fn outcome(&self) -> (r: Option<bool>)
        requires
            self.wf(),
        ensures
            r == self@.outcome(),
    {
        if self.lap_found {
            Some(true)
        } else if self.expanded == self.order.len() {
            Some(false)
        } else {
            None
        }
    }
}

/// Lap absorption only appends.
pub proof fn lemma_lap_absorb_grows<T>(order: Seq<(CarState, i32, T)>, found: Seq<(CarState, i32, T)>, v_ceil: int, check: bool)
    ensures
        lap_absorb(order, found, v_ceil, check).0.len() >= order.len(),
        lap_absorb(order, found, v_ceil, check).0.subrange(0, order.len() as int) == order,
    decreases found.len(),
{
    if found.len() > 0 {
        lemma_lap_absorb_grows(order, found.drop_last(), v_ceil, check);
        let prev = lap_absorb(order, found.drop_last(), v_ceil, check).0;
        assert(prev.push(found.last()).subrange(0, order.len() as int) == prev.subrange(0, order.len() as int));
    }
}

/// Every node of `order` lies in the box.
pub open spec fn all_in_ceiling<T>(order: Seq<(CarState, i32, T)>, v_ceil: int) -> bool {
    forall|i: int| 0 <= i < order.len() ==> in_ceiling(#[trigger] order[i].0, v_ceil)
}

/// Some node of `found` in the box has key `k`.
pub open spec fn reported_key<T>(found: Seq<(CarState, i32, T)>, v_ceil: int, k: (i32, i32, i32, i32, i32)) -> bool {
    exists|j: int| 0 <= j < found.len() && in_ceiling(found[j].0, v_ceil) && #[trigger] node_key(found[j]) == k
}

/// What lap absorption keeps, adds and reports: the keys already found
/// stay; with no lap closed, every node of `found` in the box has its key
/// found; every key found is old or comes from a node of `found` in the
/// box; keys stay distinct and nodes in the box; and a lap closes exactly
/// when checking and some node of `found` closes one.
pub proof fn lemma_lap_absorb<T>(order: Seq<(CarState, i32, T)>, found: Seq<(CarState, i32, T)>, v_ceil: int, check: bool)
    ensures
        lap_absorb(order, found, v_ceil, check).1 <==> check && exists|j: int| 0 <= j < found.len() && #[trigger] closes_lap(found[j], v_ceil),
        !lap_absorb(order, found, v_ceil, check).1 ==> forall|j: int|
            0 <= j < found.len() && in_ceiling(found[j].0, v_ceil) ==> has_key(lap_absorb(order, found, v_ceil, check).0, #[trigger] node_key(found[j])),
        forall|k: (i32, i32, i32, i32, i32)| has_key(order, k) ==> #[trigger] has_key(lap_absorb(order, found, v_ceil, check).0, k),
        forall|k: (i32, i32, i32, i32, i32)| #[trigger] has_key(lap_absorb(order, found, v_ceil, check).0, k) ==> has_key(order, k)
            || reported_key(found, v_ceil, k),
        keys_distinct(order) ==> keys_distinct(lap_absorb(order, found, v_ceil, check).0),
        all_in_ceiling(order, v_ceil) ==> all_in_ceiling(lap_absorb(order, found, v_ceil, check).0, v_ceil),
    decreases found.len(),
{
    lemma_lap_absorb_grows(order, found, v_ceil, check);
    if found.len() > 0 {
        let rest = found.drop_last();
        lemma_lap_absorb(order, rest, v_ceil, check);
        lemma_lap_absorb_grows(order, rest, v_ceil, check);
        let prev = lap_absorb(order, rest, v_ceil, check);
        let r = lap_absorb(order, found, v_ceil, check);
        let n = found.last();
        let last = found.len() - 1;
        assert(found[last] == n);
        assert forall|j: int| 0 <= j < rest.len() implies #[trigger] rest[j] == found[j] by {}
        // The keys of `prev` stay in `r`.
        assert forall|k: (i32, i32, i32, i32, i32)| has_key(prev.0, k) implies has_key(r.0, k) by {
            let i = choose|i: int| 0 <= i < prev.0.len() && #[trigger] node_key(prev.0[i]) == k;
            if r.0 != prev.0 {
                assert(r.0 == prev.0.push(n));
                assert(node_key(r.0[i]) == k);
            }
        }
        // Lap closing.
        if exists|j: int| 0 <= j < found.len() && #[trigger] closes_lap(found[j], v_ceil) {
            let j = choose|j: int| 0 <= j < found.len() && #[trigger] closes_lap(found[j], v_ceil);
            if j < last {
                assert(closes_lap(rest[j], v_ceil));
            }
        }
        if exists|j: int| 0 <= j < rest.len() && #[trigger] closes_lap(rest[j], v_ceil) {
            let j = choose|j: int| 0 <= j < rest.len() && #[trigger] closes_lap(rest[j], v_ceil);
            assert(closes_lap(found[j], v_ceil));
        }
        if r.1 && !prev.1 {
            assert(closes_lap(found[last], v_ceil));
        }
        // Coverage.
        if !r.1 {
            assert forall|j: int|
                0 <= j < found.len() && in_ceiling(found[j].0, v_ceil) implies has_key(r.0, #[trigger] node_key(found[j])) by {
                if j < last {
                    assert(has_key(prev.0, node_key(rest[j])));
                } else if r.0 == prev.0.push(n) {
                    assert(node_key(r.0[prev.0.len() as int]) == node_key(n));
                }
            }
        }
        // Soundness.
        assert forall|k: (i32, i32, i32, i32, i32)| #[trigger] has_key(r.0, k) implies has_key(order, k) || reported_key(found, v_ceil, k) by {
            let i = choose|i: int| 0 <= i < r.0.len() && #[trigger] node_key(r.0[i]) == k;
            if i < prev.0.len() {
                assert(node_key(prev.0[i]) == k);
                assert(has_key(prev.0, k));
                if reported_key(rest, v_ceil, k) {
                    let j = choose|j: int| 0 <= j < rest.len() && in_ceiling(rest[j].0, v_ceil) && #[trigger] node_key(rest[j]) == k;
                    assert(node_key(found[j]) == k);
                }
            } else {
                assert(r.0 == prev.0.push(n));
                assert(node_key(found[last]) == k);
            }
        }
        // Distinct keys and the box.
        if r.0 == prev.0.push(n) && r.0 != prev.0 {
            if keys_distinct(order) {
                assert forall|i: int, j: int| 0 <= i < j < r.0.len() implies node_key(#[trigger] r.0[i]) != node_key(#[trigger] r.0[j]) by {
                    if j == prev.0.len() {
                        if node_key(r.0[i]) == node_key(n) {
                            assert(node_key(prev.0[i]) == node_key(n));
                        }
                    } else {
                        assert(r.0[i] == prev.0[i] && r.0[j] == prev.0[j]);
                    }
                }
            }
            if all_in_ceiling(order, v_ceil) {
                assert forall|i: int| 0 <= i < r.0.len() implies in_ceiling(#[trigger] r.0[i].0, v_ceil) by {
                    if i < prev.0.len() {
                        assert(r.0[i] == prev.0[i]);
                    }
                }
            }
        }
    }
}

/// A lap search's verdict and nodes: a lap has been found exactly when some
/// reported move closes one; until then every reported move in the box has
/// its node found; the nodes lie in the box, one per key, each a start or
/// a reported move in the box.
pub proof fn lemma_lap_search_verdict<T>(v: LapSearchView<T>)
    requires
        v.wf(),
    ensures
        v.lap_found <==> exists|i: int, j: int|
            0 <= i < v.reports.len() && 0 <= j < v.reports[i].len() && #[trigger] closes_lap(v.reports[i][j], v.v_ceil),
        !v.lap_found ==> forall|i: int, j: int|
            0 <= i < v.reports.len() && 0 <= j < v.reports[i].len() && in_ceiling(v.reports[i][j].0, v.v_ceil) ==> has_key(
                v.order,
                #[trigger] node_key(v.reports[i][j]),
            ),
        forall|j: int| 0 <= j < v.starts.len() && in_ceiling(v.starts[j].0, v.v_ceil) ==> has_key(v.order, #[trigger] node_key(v.starts[j])),
        keys_distinct(v.order),
        all_in_ceiling(v.order, v.v_ceil),
        forall|k: (i32, i32, i32, i32, i32)| #[trigger] has_key(v.order, k) ==> reported_key(v.starts, v.v_ceil, k) || exists|i: int|
            0 <= i < v.reports.len() && #[trigger] reported_key(v.reports[i], v.v_ceil, k),
{
    lemma_lap_discovered(v.starts, v.reports, v.v_ceil);
}

/// The invariants of [`lemma_lap_search_verdict`], by induction on the
/// reports.
proof fn lemma_lap_discovered<T>(starts: Seq<(CarState, i32, T)>, reports: Seq<Seq<(CarState, i32, T)>>, v_ceil: int)
    ensures
        ({
            let (order, hit) = lap_discovered(starts, reports, v_ceil);
            &&& hit <==> exists|i: int, j: int|
                0 <= i < reports.len() && 0 <= j < reports[i].len() && #[trigger] closes_lap(reports[i][j], v_ceil)
            &&& !hit ==> forall|i: int, j: int|
                0 <= i < reports.len() && 0 <= j < reports[i].len() && in_ceiling(reports[i][j].0, v_ceil) ==> has_key(
                    order,
                    #[trigger] node_key(reports[i][j]),
                )
            &&& forall|j: int| 0 <= j < starts.len() && in_ceiling(starts[j].0, v_ceil) ==> has_key(order, #[trigger] node_key(starts[j]))
            &&& keys_distinct(order)
            &&& all_in_ceiling(order, v_ceil)
            &&& forall|k: (i32, i32, i32, i32, i32)| #[trigger] has_key(order, k) ==> reported_key(starts, v_ceil, k) || exists|i: int|
                0 <= i < reports.len() && #[trigger] reported_key(reports[i], v_ceil, k)
        }),
    decreases reports.len(),
{
    if reports.len() == 0 {
        lemma_lap_absorb(Seq::<(CarState, i32, T)>::empty(), starts, v_ceil, false);
        assert forall|k: (i32, i32, i32, i32, i32)| !has_key(Seq::<(CarState, i32, T)>::empty(), k) by {}
    } else {
        let rest = reports.drop_last();
        let last = reports.len() - 1;
        lemma_lap_discovered(starts, rest, v_ceil);
        let (prev, prev_hit) = lap_discovered(starts, rest, v_ceil);
        let (order, hit) = lap_discovered(starts, reports, v_ceil);
        assert forall|i: int| 0 <= i < rest.len() implies #[trigger] rest[i] == reports[i] by {}
        if prev_hit {
            let (i, j) = choose|i: int, j: int| 0 <= i < rest.len() && 0 <= j < rest[i].len() && #[trigger] closes_lap(rest[i][j], v_ceil);
            assert(closes_lap(reports[i][j], v_ceil));
            assert forall|k: (i32, i32, i32, i32, i32)| #[trigger] has_key(order, k) implies reported_key(starts, v_ceil, k) || exists|i: int|
                0 <= i < reports.len() && #[trigger] reported_key(reports[i], v_ceil, k) by {
                if !reported_key(starts, v_ceil, k) {
                    let i = choose|i: int| 0 <= i < rest.len() && #[trigger] reported_key(rest[i], v_ceil, k);
                    assert(reported_key(reports[i], v_ceil, k));
                }
            }
        } else {
            lemma_lap_absorb(prev, reports[last], v_ceil, true);
            assert(reports.last() == reports[last]);
            // Lap closing.
            if exists|i: int, j: int| 0 <= i < reports.len() && 0 <= j < reports[i].len() && #[trigger] closes_lap(reports[i][j], v_ceil) {
                let (i, j) = choose|i: int, j: int| 0 <= i < reports.len() && 0 <= j < reports[i].len() && #[trigger] closes_lap(reports[i][j], v_ceil);
                if i < last {
                    assert(closes_lap(rest[i][j], v_ceil));
                } else {
                    assert(closes_lap(reports[last][j], v_ceil));
                }
            }
            if hit {
                let j = choose|j: int| 0 <= j < reports[last].len() && #[trigger] closes_lap(reports[last][j], v_ceil);
                assert(closes_lap(reports[last][j], v_ceil));
            }
            // Coverage.
            if !hit {
                assert forall|i: int, j: int|
                    0 <= i < reports.len() && 0 <= j < reports[i].len() && in_ceiling(reports[i][j].0, v_ceil) implies has_key(
                    order,
                    #[trigger] node_key(reports[i][j]),
                ) by {
                    if i < last {
                        assert(has_key(prev, node_key(rest[i][j])));
                    }
                }
            }
            assert forall|j: int| 0 <= j < starts.len() && in_ceiling(starts[j].0, v_ceil) implies has_key(order, #[trigger] node_key(starts[j])) by {
                assert(has_key(prev, node_key(starts[j])));
            }
            // Soundness.
            assert forall|k: (i32, i32, i32, i32, i32)| #[trigger] has_key(order, k) implies reported_key(starts, v_ceil, k) || exists|i: int|
                0 <= i < reports.len() && #[trigger] reported_key(reports[i], v_ceil, k) by {
                if has_key(prev, k) {
                    if !reported_key(starts, v_ceil, k) {
                        let i = choose|i: int| 0 <= i < rest.len() && #[trigger] reported_key(rest[i], v_ceil, k);
                        assert(reported_key(reports[i], v_ceil, k));
                    }
                } else {
                    assert(reported_key(reports[last], v_ceil, k));
                }
            }
        }
    }
}

} // verus!
