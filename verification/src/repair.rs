//! Ф6 — the repair vocabulary and its single pass: the dispatch order of
//! a pass, which arm each label goes to, which arm produced an edit and
//! which recheck an edit of that arm takes, and the pass that walks the
//! labels once, applying each committed edit before the next dispatch.

use vstd::prelude::*;
use crate::checks::Issue;
use crate::corridor::Corridor;
use crate::geom::{Orient, Point};

verus! {

/// One entry of a repair pass's dispatch list: a detected issue, or the
/// dynamic stall arm, which carries no issue of its own. The derived order
/// is the pass order: issues by their severity order, then the dynamic
/// stall, declared last, after every issue.
#[derive(Clone, Copy, PartialEq, Eq, PartialOrd, Ord, Debug)]
pub enum DispatchLabel {
    /// A statically or dynamically detected issue.
    Issue(Issue),
    /// The dynamic frontier-gap arm.
    DynamicStall,
}

/// The repair arm that produced a committed edit.
#[derive(Clone, Copy, PartialEq, Eq, Hash, Debug, Structural)]
pub enum RepairArm {
    /// Pushes an outer wall out to widen a narrow cross-section.
    PushOuterWallOut,
    /// Fills a degree-1 non-drivable protrusion.
    FillInnerTooth,
    /// Extends a braking straight upstream of a deficient corner entry.
    LengthenStraight,
    /// Widens a corner so a faster arrival keeps a legal successor.
    WidenCorner,
    /// Trims a drivable intrusion into the infield.
    TrimArmWall,
    /// Re-opens a lost-hairpin finger's separating strip.
    NudgeFinger,
    /// Maps a stall diagnostic to a frontier-gap edge.
    MapFrontierGap,
}

/// The recheck an edit type takes.
#[derive(Clone, Copy, PartialEq, Eq, Hash, Debug, Structural)]
pub enum RecheckScope {
    /// The arm's own local metric only — no whole-corridor flood fill.
    Local,
    /// One component and one bounded hole, re-counted on the edited
    /// corridor.
    GlobalFloodFill,
    /// The run-out deficit re-measured under the sink-to-sink flood.
    SinkToSink,
}

/// The recheck routing table: add arms (and the frontier-gap map) check
/// locally, run-out arms re-measure sink to sink, remove arms re-count the
/// topology.
pub open spec fn scope_of(arm: RepairArm) -> RecheckScope {
    match arm {
        RepairArm::PushOuterWallOut | RepairArm::FillInnerTooth | RepairArm::MapFrontierGap => RecheckScope::Local,
        RepairArm::LengthenStraight | RepairArm::WidenCorner => RecheckScope::SinkToSink,
        RepairArm::TrimArmWall | RepairArm::NudgeFinger => RecheckScope::GlobalFloodFill,
    }
}

/// The recheck scope for `arm` — the single source of truth both the
/// driver's verification and the committed edit's record read.
pub fn recheck_scope(arm: RepairArm) -> (r: RecheckScope)
    ensures
        r == scope_of(arm),
{
    match arm {
        RepairArm::PushOuterWallOut | RepairArm::FillInnerTooth | RepairArm::MapFrontierGap => {
            RecheckScope::Local
        },
        RepairArm::LengthenStraight | RepairArm::WidenCorner => RecheckScope::SinkToSink,
        RepairArm::TrimArmWall | RepairArm::NudgeFinger => RecheckScope::GlobalFloodFill,
    }
}


/// Why an arm declined to edit.
#[derive(Clone, Copy, PartialEq, Eq, Debug, Structural)]
pub enum DeclineReason {
    /// The label has no single-edge repair (`Disconnected`, `BadTopology`).
    NotRepairable,
    /// The arm's family needs oracle input the pass was not given.
    MissingOracleInput,
    /// The payload no longer holds against the working corridor.
    StalePayload,
    /// No admissible candidate was found.
    NoCandidate,
    /// A candidate was found, but its metric did not strictly improve.
    MetricNotImproved,
    /// A candidate improved its own metric but failed the recheck.
    RecheckFailed,
}

/// Where a label is dispatched.
#[derive(Clone, Copy, PartialEq, Eq, Debug, Structural)]
pub enum Route {
    /// Declined before any arm runs.
    Decline(DeclineReason),
    /// Handed to this arm.
    Arm(RepairArm),
    /// Handed to the run-out arms, which lengthen the braking straight or
    /// widen the corner.
    RunOut,
}

/// The routing table of a pass.
pub open spec fn route_of(label: DispatchLabel, has_metrics: bool, has_stall_walls: bool) -> Route {
    match label {
        DispatchLabel::Issue(issue) => match issue {
            Issue::Disconnected | Issue::BadTopology => Route::Decline(DeclineReason::NotRepairable),
            Issue::LostHairpin { .. } => Route::Arm(RepairArm::NudgeFinger),
            Issue::ArmsMerging { .. } => Route::Arm(RepairArm::TrimArmWall),
            Issue::ConcaveChordCut { .. } => Route::Arm(RepairArm::FillInnerTooth),
            Issue::Narrow { .. } | Issue::NarrowSf { .. } => Route::Arm(RepairArm::PushOuterWallOut),
            Issue::NoBraking { .. } => if has_metrics {
                Route::RunOut
            } else {
                Route::Decline(DeclineReason::MissingOracleInput)
            },
        },
        DispatchLabel::DynamicStall => if has_stall_walls {
            Route::Arm(RepairArm::MapFrontierGap)
        } else {
            Route::Decline(DeclineReason::MissingOracleInput)
        },
    }
}

/// Where `label` goes: the two topology labels decline as not repairable;
/// each other issue goes to its arm; the run-out issue needs the oracle's
/// metrics and the dynamic stall its stall walls, declining without them.
pub fn route(label: DispatchLabel, has_metrics: bool, has_stall_walls: bool) -> (r: Route)
    ensures
        r == route_of(label, has_metrics, has_stall_walls),
{
    match label {
        DispatchLabel::Issue(issue) => match issue {
            Issue::Disconnected | Issue::BadTopology => Route::Decline(DeclineReason::NotRepairable),
            Issue::LostHairpin { .. } => Route::Arm(RepairArm::NudgeFinger),
            Issue::ArmsMerging { .. } => Route::Arm(RepairArm::TrimArmWall),
            Issue::ConcaveChordCut { .. } => Route::Arm(RepairArm::FillInnerTooth),
            Issue::Narrow { .. } | Issue::NarrowSf { .. } => Route::Arm(RepairArm::PushOuterWallOut),
            Issue::NoBraking { .. } => if has_metrics {
                Route::RunOut
            } else {
                Route::Decline(DeclineReason::MissingOracleInput)
            },
        },
        DispatchLabel::DynamicStall => if has_stall_walls {
            Route::Arm(RepairArm::MapFrontierGap)
        } else {
            Route::Decline(DeclineReason::MissingOracleInput)
        },
    }
}

/// A label's severity rank: the issue variants in declaration order, then
/// the dynamic stall.
pub open spec fn label_rank(l: DispatchLabel) -> int {
    match l {
        DispatchLabel::Issue(issue) => match issue {
            Issue::Disconnected => 0,
            Issue::BadTopology => 1,
            Issue::LostHairpin { .. } => 2,
            Issue::ArmsMerging { .. } => 3,
            Issue::ConcaveChordCut { .. } => 4,
            Issue::Narrow { .. } => 5,
            Issue::NarrowSf { .. } => 6,
            Issue::NoBraking { .. } => 7,
        },
        DispatchLabel::DynamicStall => 8,
    }
}

/// An axis as its declaration index.
pub open spec fn axis_index(a: Orient) -> int {
    match a {
        Orient::Horizontal => 0,
        Orient::Vertical => 1,
    }
}

/// A label's payload in field order — its point's `x` and `y`, its axis
/// and its width — with zeros where it has none.
pub open spec fn label_payload(l: DispatchLabel) -> (int, int, int, int) {
    match l {
        DispatchLabel::Issue(issue) => match issue {
            Issue::LostHairpin { tip: p } | Issue::ArmsMerging { bridge: p } | Issue::ConcaveChordCut { tooth: p }
            | Issue::NoBraking { at: p } => (p.0 as int, p.1 as int, 0, 0),
            Issue::Narrow { center, axis, width } | Issue::NarrowSf { center, axis, width } => (
                center.0 as int,
                center.1 as int,
                axis_index(axis),
                width as int,
            ),
            _ => (0, 0, 0, 0),
        },
        DispatchLabel::DynamicStall => (0, 0, 0, 0),
    }
}

/// `a` comes strictly before `b` in a pass: by severity rank, then by
/// payload, lexicographically.
pub open spec fn label_before(a: DispatchLabel, b: DispatchLabel) -> bool {
    let (pa, pb) = (label_payload(a), label_payload(b));
    ||| label_rank(a) < label_rank(b)
    ||| label_rank(a) == label_rank(b) && (pa.0 < pb.0 || (pa.0 == pb.0 && (pa.1 < pb.1 || (pa.1 == pb.1 && (pa.2 < pb.2
        || (pa.2 == pb.2 && pa.3 < pb.3))))))
}

/// The labels are in pass order.
pub open spec fn labels_sorted(s: Seq<DispatchLabel>) -> bool {
    forall|i: int, j: int| 0 <= i < j < s.len() ==> !label_before(#[trigger] s[j], #[trigger] s[i])
}

/// The dispatch list of a pass before sorting: every issue as a label, in
/// order, then the dynamic stall.
pub open spec fn pass_labels(issues: Seq<Issue>) -> Seq<DispatchLabel> {
    Seq::new(issues.len(), |i: int| DispatchLabel::Issue(issues[i])).push(DispatchLabel::DynamicStall)
}

/// Two labels with the same rank and payload are the same label.
proof fn lemma_label_key_injective(a: DispatchLabel, b: DispatchLabel)
    requires
        label_rank(a) == label_rank(b),
        label_payload(a) == label_payload(b),
    ensures
        a == b,
{
}

/// Of two distinct labels, one comes before the other.
proof fn lemma_label_before_total(a: DispatchLabel, b: DispatchLabel)
    requires
        a != b,
    ensures
        label_before(a, b) || label_before(b, a),
{
    if !label_before(a, b) && !label_before(b, a) {
        lemma_label_key_injective(a, b);
    }
}

/// Two label lists in pass order that hold the same labels are the same
/// list.
proof fn lemma_sorted_labels_unique(ra: Seq<DispatchLabel>, rb: Seq<DispatchLabel>)
    requires
        labels_sorted(ra),
        labels_sorted(rb),
        ra.to_multiset() == rb.to_multiset(),
    ensures
        ra == rb,
    decreases ra.len(),
{
    broadcast use vstd::seq_lib::group_to_multiset_ensures;
    vstd::seq_lib::to_multiset_len(ra);
    vstd::seq_lib::to_multiset_len(rb);
    assert(ra.len() == rb.len());
    if ra.len() == 0 {
        assert(ra =~= rb);
    } else {
        let x = ra[0];
        let y = rb[0];
        if x != y {
            lemma_label_before_total(x, y);
            vstd::seq_lib::to_multiset_contains(ra, x);
            vstd::seq_lib::to_multiset_contains(rb, x);
            vstd::seq_lib::to_multiset_contains(ra, y);
            vstd::seq_lib::to_multiset_contains(rb, y);
            assert(ra.contains(x));
            assert(rb.contains(x));
            let k = choose|k: int| 0 <= k < rb.len() && rb[k] == x;
            assert(rb.contains(y));
            assert(ra.contains(y));
            let j = choose|j: int| 0 <= j < ra.len() && ra[j] == y;
            assert(k > 0 && j > 0);
            assert(!label_before(rb[k], rb[0]));
            assert(!label_before(ra[j], ra[0]));
        }
        vstd::seq_lib::to_multiset_remove(ra, 0);
        vstd::seq_lib::to_multiset_remove(rb, 0);
        let (ta, tb) = (ra.remove(0), rb.remove(0));
        assert forall|i: int, j: int| 0 <= i < j < ta.len() implies !label_before(#[trigger] ta[j], #[trigger] ta[i]) by {
            assert(ta[i] == ra[i + 1] && ta[j] == ra[j + 1]);
        }
        assert forall|i: int, j: int| 0 <= i < j < tb.len() implies !label_before(#[trigger] tb[j], #[trigger] tb[i]) by {
            assert(tb[i] == rb[i + 1] && tb[j] == rb[j + 1]);
        }
        lemma_sorted_labels_unique(ta, tb);
        assert forall|i: int| 0 <= i < ra.len() implies ra[i] == rb[i] by {
            if i > 0 {
                assert(ra[i] == ta[i - 1] && rb[i] == tb[i - 1]);
            }
        }
        assert(ra =~= rb);
    }
}

/// The issues' labels, in order.
spec fn issue_labels(s: Seq<Issue>) -> Seq<DispatchLabel> {
    Seq::new(s.len(), |i: int| DispatchLabel::Issue(s[i]))
}

/// An issue's label occurs in the labels as often as the issue in the
/// issues, and the stall never.
proof fn lemma_issue_labels_count(s: Seq<Issue>, x: Issue)
    ensures
        issue_labels(s).to_multiset().count(DispatchLabel::Issue(x)) == s.to_multiset().count(x),
        issue_labels(s).to_multiset().count(DispatchLabel::DynamicStall) == 0,
    decreases s.len(),
{
    broadcast use vstd::seq_lib::group_to_multiset_ensures;
    if s.len() == 0 {
        assert(issue_labels(s) =~= Seq::<DispatchLabel>::empty());
    } else {
        let t = s.drop_last();
        lemma_issue_labels_count(t, x);
        assert(issue_labels(s) =~= issue_labels(t).push(DispatchLabel::Issue(s.last())));
        assert(s =~= t.push(s.last()));
        vstd::seq_lib::to_multiset_build(issue_labels(t), DispatchLabel::Issue(s.last()));
        vstd::seq_lib::to_multiset_build(t, s.last());
    }
}

/// Issue lists that are permutations of each other give dispatch lists
/// that hold the same labels.
proof fn lemma_pass_labels_permutation(a: Seq<Issue>, b: Seq<Issue>)
    requires
        a.to_multiset() == b.to_multiset(),
    ensures
        pass_labels(a).to_multiset() == pass_labels(b).to_multiset(),
{
    broadcast use vstd::seq_lib::group_to_multiset_ensures;
    assert forall|l: DispatchLabel| #[trigger] issue_labels(a).to_multiset().count(l) == issue_labels(b).to_multiset().count(l) by {
        match l {
            DispatchLabel::Issue(x) => {
                lemma_issue_labels_count(a, x);
                lemma_issue_labels_count(b, x);
            },
            DispatchLabel::DynamicStall => {
                lemma_issue_labels_count(a, Issue::Disconnected);
                lemma_issue_labels_count(b, Issue::Disconnected);
            },
        }
    }
    assert(issue_labels(a).to_multiset() =~= issue_labels(b).to_multiset());
    assert(pass_labels(a) == issue_labels(a).push(DispatchLabel::DynamicStall));
    assert(pass_labels(b) == issue_labels(b).push(DispatchLabel::DynamicStall));
    vstd::seq_lib::to_multiset_build(issue_labels(a), DispatchLabel::DynamicStall);
    vstd::seq_lib::to_multiset_build(issue_labels(b), DispatchLabel::DynamicStall);
}

/// A repair pass does not depend on the order its issues came in: for
/// issue lists that are permutations of each other, any two dispatch lists
/// in pass order holding their labels and the stall are the same list, so
/// the passes dispatch the same labels in the same order.
pub proof fn lemma_pass_order_ignores_issue_order(
    a: Seq<Issue>,
    b: Seq<Issue>,
    ra: Seq<DispatchLabel>,
    rb: Seq<DispatchLabel>,
)
    requires
        a.to_multiset() == b.to_multiset(),
        labels_sorted(ra),
        ra.to_multiset() == pass_labels(a).to_multiset(),
        labels_sorted(rb),
        rb.to_multiset() == pass_labels(b).to_multiset(),
    ensures
        ra == rb,
{
    lemma_pass_labels_permutation(a, b);
    lemma_sorted_labels_unique(ra, rb);
}

/// `(rank, x, y, axis, width)` of `l`.
fn label_key(l: DispatchLabel) -> (r: (u32, i32, i32, u32, u32))
    ensures
        r.0 as int == label_rank(l),
        (r.1 as int, r.2 as int, r.3 as int, r.4 as int) == label_payload(l),
{
    match l {
        DispatchLabel::Issue(issue) => match issue {
            Issue::Disconnected => (0, 0, 0, 0, 0),
            Issue::BadTopology => (1, 0, 0, 0, 0),
            Issue::LostHairpin { tip } => (2, tip.0, tip.1, 0, 0),
            Issue::ArmsMerging { bridge } => (3, bridge.0, bridge.1, 0, 0),
            Issue::ConcaveChordCut { tooth } => (4, tooth.0, tooth.1, 0, 0),
            Issue::Narrow { center, axis, width } => (5, center.0, center.1, match axis {
                Orient::Horizontal => 0,
                Orient::Vertical => 1,
            }, width),
            Issue::NarrowSf { center, axis, width } => (6, center.0, center.1, match axis {
                Orient::Horizontal => 0,
                Orient::Vertical => 1,
            }, width),
            Issue::NoBraking { at } => (7, at.0, at.1, 0, 0),
        },
        DispatchLabel::DynamicStall => (8, 0, 0, 0, 0),
    }
}

/// Whether `a` comes strictly before `b` in a pass.
pub fn label_precedes(a: DispatchLabel, b: DispatchLabel) -> (r: bool)
    ensures
        r == label_before(a, b),
{
    let ka = label_key(a);
    let kb = label_key(b);
    ka.0 < kb.0 || (ka.0 == kb.0 && (ka.1 < kb.1 || (ka.1 == kb.1 && (ka.2 < kb.2 || (ka.2 == kb.2 && (ka.3 < kb.3 || (ka.3
        == kb.3 && ka.4 < kb.4)))))))
}

/// Inserts `x` into the sorted `r` after every label it does not come
/// before, keeping `r` sorted.
fn insert_in_order(r: &mut Vec<DispatchLabel>, x: DispatchLabel)
    requires
        labels_sorted(old(r)@),
    ensures
        labels_sorted(final(r)@),
        final(r)@.to_multiset() == old(r)@.to_multiset().insert(x),
{
    let mut p: usize = 0;
    while p < r.len() && !label_precedes(x, r[p])
        invariant
            p <= r.len(),
            forall|k: int| 0 <= k < p ==> !label_before(x, #[trigger] r@[k]),
        decreases r.len() - p,
    {
        p = p + 1;
    }
    let ghost before = r@;
    r.insert(p, x);
    proof {
        vstd::seq_lib::to_multiset_insert(before, p as int, x);
        assert forall|a: int, b: int| 0 <= a < b < r@.len() implies !label_before(#[trigger] r@[b], #[trigger] r@[a]) by {
            if b < p {
                assert(r@[a] == before[a] && r@[b] == before[b]);
            } else if b == p {
                assert(r@[a] == before[a]);
            } else if a < p {
                assert(r@[a] == before[a] && r@[b] == before[b - 1]);
                if label_before(r@[b], r@[a]) {
                    assert(!label_before(before[b - 1], before[p as int]) || b - 1 == p);
                }
            } else if a == p {
                assert(r@[b] == before[b - 1]);
                assert(label_before(x, before[p as int]));
                if b - 1 > p {
                    assert(!label_before(before[b - 1], before[p as int]));
                }
            } else {
                assert(r@[a] == before[a - 1] && r@[b] == before[b - 1]);
            }
        }
    }
}

/// The dispatch list of a pass in pass order: every issue as a label and
/// the dynamic stall, sorted by severity and then payload.
pub fn dispatch_order(issues: &Vec<Issue>) -> (r: Vec<DispatchLabel>)
    ensures
        r@.to_multiset() == pass_labels(issues@).to_multiset(),
        labels_sorted(r@),
        r@.len() == issues@.len() + 1,
        r@.last() == DispatchLabel::DynamicStall,
{
    broadcast use vstd::seq_lib::group_to_multiset_ensures;
    let ghost issue_labels = Seq::new(issues@.len(), |i: int| DispatchLabel::Issue(issues@[i]));
    let mut r: Vec<DispatchLabel> = Vec::new();
    let mut i: usize = 0;
    proof {
        assert(issue_labels.take(0) =~= Seq::<DispatchLabel>::empty());
    }
    while i < issues.len()
        invariant
            i <= issues.len(),
            issue_labels == Seq::new(issues@.len(), |i: int| DispatchLabel::Issue(issues@[i])),
            r@.to_multiset() == issue_labels.take(i as int).to_multiset(),
            labels_sorted(r@),
        decreases issues.len() - i,
    {
        let x = DispatchLabel::Issue(issues[i]);
        insert_in_order(&mut r, x);
        proof {
            assert(issue_labels.take(i + 1) =~= issue_labels.take(i as int).push(x));
            vstd::seq_lib::to_multiset_build(issue_labels.take(i as int), x);
        }
        i = i + 1;
    }
    insert_in_order(&mut r, DispatchLabel::DynamicStall);
    proof {
        assert(issue_labels.take(issues@.len() as int) =~= issue_labels);
        assert(pass_labels(issues@) == issue_labels.push(DispatchLabel::DynamicStall));
        vstd::seq_lib::to_multiset_build(issue_labels, DispatchLabel::DynamicStall);
        lemma_stall_is_last(r@, issue_labels);
    }
    r
}

/// A sorted list holding the labels of some issues and one dynamic stall
/// ends with the stall.
proof fn lemma_stall_is_last(r: Seq<DispatchLabel>, issue_labels: Seq<DispatchLabel>)
    requires
        labels_sorted(r),
        r.to_multiset() == issue_labels.to_multiset().insert(DispatchLabel::DynamicStall),
        forall|i: int| 0 <= i < issue_labels.len() ==> #[trigger] issue_labels[i] != DispatchLabel::DynamicStall,
    ensures
        r.len() == issue_labels.len() + 1,
        r.last() == DispatchLabel::DynamicStall,
{
    broadcast use vstd::seq_lib::group_to_multiset_ensures;
    broadcast use vstd::multiset::group_multiset_axioms;
    let stall = DispatchLabel::DynamicStall;
    assert(r.len() == r.to_multiset().len());
    assert(issue_labels.len() == issue_labels.to_multiset().len());
    assert(issue_labels.to_multiset().insert(stall).len() == issue_labels.to_multiset().len() + 1);
    assert(!issue_labels.contains(stall));
    assert(issue_labels.to_multiset().count(stall) == 0);
    assert(r.to_multiset().count(stall) == 1);
    assert(r.contains(stall));
    let k = choose|k: int| 0 <= k < r.len() && r[k] == stall;
    let last = r.len() - 1;
    if k < last {
        assert(!label_before(r[last], r[k]));
        assert(r[last] == stall);
        assert(r.remove(k).contains(stall)) by {
            assert(r.remove(k)[last - 1] == stall);
        }
        assert(r.remove(k).to_multiset() =~= r.to_multiset().remove(stall));
        assert(r.remove(k).to_multiset().count(stall) == 0);
    }
}

/// `d` after `edits` in order: each edit sets its cell's drivability;
/// cells outside the box stay as they are.
pub open spec fn edited_has(d: Corridor, edits: Seq<(Point, bool)>, q: Point) -> bool
    decreases edits.len(),
{
    if edits.len() == 0 {
        d.has(q)
    } else if edits.last().0 == q && d.in_box(q) {
        edits.last().1
    } else {
        edited_has(d, edits.drop_last(), q)
    }
}

/// `e` flips its cell in `w`: the cell lies in the box and has the other
/// drivability there.
pub open spec fn edit_flips(w: &Corridor, e: (Point, bool)) -> bool {
    w.in_box(e.0) && w.has(e.0) != e.1
}

/// Every edit flips its cell in `d` with the earlier edits applied.
pub open spec fn edits_flip(d: Corridor, edits: Seq<(Point, bool)>) -> bool {
    forall|i: int| #![trigger edits[i]] 0 <= i < edits.len() ==> d.in_box(edits[i].0) && edited_has(d, edits.take(i), edits[i].0) != edits[i].1
}

/// No two edits name the same cell.
pub open spec fn distinct_cells(edits: Seq<(Point, bool)>) -> bool {
    forall|i: int, j: int| 0 <= i < j < edits.len() ==> #[trigger] edits[i].0 != #[trigger] edits[j].0
}

/// The cells the edits name.
pub open spec fn edit_cells(edits: Seq<(Point, bool)>) -> Set<Point> {
    Set::new(|q: Point| exists|i: int| 0 <= i < edits.len() && edits[i].0 == q)
}

/// The cells where `d` with the edits applied differs from `d`.
pub open spec fn changed_cells(d: Corridor, edits: Seq<(Point, bool)>) -> Set<Point> {
    Set::new(|q: Point| edited_has(d, edits, q) != d.has(q))
}

/// A cell no edit names keeps its drivability.
proof fn lemma_unedited_cell(d: Corridor, edits: Seq<(Point, bool)>, q: Point)
    requires
        forall|i: int| 0 <= i < edits.len() ==> (#[trigger] edits[i]).0 != q,
    ensures
        edited_has(d, edits, q) == d.has(q),
    decreases edits.len(),
{
    if edits.len() > 0 {
        let t = edits.drop_last();
        assert forall|i: int| 0 <= i < t.len() implies (#[trigger] t[i]).0 != q by {
            assert(t[i] == edits[i]);
        }
        lemma_unedited_cell(d, t, q);
    }
}

/// Only cells that some edit names can change.
pub proof fn lemma_changed_cells_are_edited(d: Corridor, edits: Seq<(Point, bool)>)
    ensures
        changed_cells(d, edits).subset_of(edit_cells(edits)),
{
    assert forall|q: Point| #[trigger] changed_cells(d, edits).contains(q) implies edit_cells(edits).contains(q) by {
        if !edit_cells(edits).contains(q) {
            assert forall|i: int| 0 <= i < edits.len() implies (#[trigger] edits[i]).0 != q by {}
            lemma_unedited_cell(d, edits, q);
        }
    }
}

/// Each edit flips exactly one cell: when every edit flips its cell and no
/// two edits name the same cell, the edited corridor differs from `d` in
/// exactly the edited cells, as many as there are edits.
pub proof fn lemma_each_edit_flips_one_cell(d: Corridor, edits: Seq<(Point, bool)>)
    requires
        edits_flip(d, edits),
        distinct_cells(edits),
    ensures
        changed_cells(d, edits) == edit_cells(edits),
        changed_cells(d, edits).finite(),
        changed_cells(d, edits).len() == edits.len(),
        forall|i: int| #![trigger edits[i]] 0 <= i < edits.len() ==> edited_has(d, edits, edits[i].0) == edits[i].1 && d.has(edits[i].0) != edits[i].1,
    decreases edits.len(),
{
    assert forall|i: int| #![trigger edits[i]] 0 <= i < edits.len() implies d.has(edits[i].0) != edits[i].1 by {
        let pre = edits.take(i);
        assert forall|j: int| 0 <= j < pre.len() implies (#[trigger] pre[j]).0 != edits[i].0 by {
            assert(pre[j] == edits[j]);
        }
        lemma_unedited_cell(d, pre, edits[i].0);
    }
    if edits.len() == 0 {
        assert(changed_cells(d, edits) =~= Set::empty());
        assert(edit_cells(edits) =~= Set::empty());
    } else {
        let n = edits.len() - 1;
        let t = edits.drop_last();
        let e = edits.last();
        assert forall|i: int| #![trigger t[i]] 0 <= i < t.len() implies d.in_box(t[i].0) && edited_has(d, t.take(i), t[i].0) != t[i].1 by {
            assert(t[i] == edits[i]);
            assert(t.take(i) =~= edits.take(i));
        }
        assert forall|i: int, j: int| 0 <= i < j < t.len() implies #[trigger] t[i].0 != #[trigger] t[j].0 by {
            assert(t[i] == edits[i] && t[j] == edits[j]);
        }
        lemma_each_edit_flips_one_cell(d, t);
        assert forall|i: int| 0 <= i < t.len() implies (#[trigger] t[i]).0 != e.0 by {
            assert(t[i] == edits[i] && e == edits[n]);
        }
        lemma_unedited_cell(d, t, e.0);
        assert(edits.take(n) =~= t);
        assert(edits[n] == e);
        assert(d.in_box(e.0) && edited_has(d, t, e.0) != e.1);
        assert(changed_cells(d, edits) =~= changed_cells(d, t).insert(e.0)) by {
            assert forall|q: Point| #[trigger] changed_cells(d, edits).contains(q) == changed_cells(d, t).insert(e.0).contains(q) by {
                if q != e.0 {
                    assert(edited_has(d, edits, q) == edited_has(d, t, q));
                }
            }
        }
        assert(edit_cells(edits) =~= edit_cells(t).insert(e.0)) by {
            assert forall|q: Point| #[trigger] edit_cells(edits).contains(q) == edit_cells(t).insert(e.0).contains(q) by {
                if edit_cells(edits).contains(q) {
                    let i = choose|i: int| 0 <= i < edits.len() && edits[i].0 == q;
                    if i < n {
                        assert(t[i] == edits[i]);
                    }
                }
                if edit_cells(t).contains(q) {
                    let i = choose|i: int| 0 <= i < t.len() && t[i].0 == q;
                    assert(t[i] == edits[i]);
                }
            }
        }
        assert(!changed_cells(d, t).contains(e.0));
        assert forall|i: int| #![trigger edits[i]] 0 <= i < edits.len() implies edited_has(d, edits, edits[i].0) == edits[i].1 by {
            if i < n {
                assert(t[i] == edits[i]);
                assert(edits[i].0 != e.0);
            }
        }
    }
}

/// A repair pass as plain values.
pub struct RepairPassView {
    /// The corridor the pass started from.
    pub start: Corridor,
    /// The dispatch list, in pass order.
    pub labels: Seq<DispatchLabel>,
    /// How many labels have been dispatched.
    pub dispatched: nat,
    /// The committed edits, in order: each cell and its new drivability.
    pub edits: Seq<(Point, bool)>,
    /// The working corridor every dispatch sees.
    pub working: Corridor,
}

impl RepairPassView {
    /// The pass is consistent: the working corridor is the start with the
    /// committed edits applied, and at most one edit per dispatched label.
    pub open spec fn wf(self) -> bool {
        &&& self.dispatched <= self.labels.len()
        &&& self.edits.len() <= self.dispatched
        &&& self.start.wf()
        &&& self.working.wf()
        &&& self.working.same_box(&self.start)
        &&& forall|q: Point| #[trigger] self.working.has(q) == edited_has(self.start, self.edits, q)
    }
}

/// Over a consistent pass whose edits each flip their cell and name
/// distinct cells, the working corridor differs from the start in exactly
/// the edited cells, one per edit.
pub proof fn lemma_pass_differs_once_per_edit(v: RepairPassView)
    requires
        v.wf(),
        edits_flip(v.start, v.edits),
        distinct_cells(v.edits),
    ensures
        Set::new(|q: Point| v.working.has(q) != v.start.has(q)) == edit_cells(v.edits),
        Set::new(|q: Point| v.working.has(q) != v.start.has(q)).len() == v.edits.len(),
        forall|i: int| #![trigger v.edits[i]] 0 <= i < v.edits.len() ==> v.working.has(v.edits[i].0) == v.edits[i].1 && v.start.has(v.edits[i].0) != v.edits[i].1,
{
    lemma_each_edit_flips_one_cell(v.start, v.edits);
    assert(Set::new(|q: Point| v.working.has(q) != v.start.has(q)) =~= changed_cells(v.start, v.edits));
}

/// A single repair pass: the labels in pass order, dispatched once each
/// against a working corridor to which every committed edit is applied
/// before the next dispatch.
pub struct RepairPass {
    labels: Vec<DispatchLabel>,
    next: usize,
    working: Corridor,
    edits: Vec<(Point, bool)>,
    start: Ghost<Corridor>,
}

impl View for RepairPass {
    type V = RepairPassView;

    closed spec fn view(&self) -> RepairPassView {
        RepairPassView {
            start: self.start@,
            labels: self.labels@,
            dispatched: self.next as nat,
            edits: self.edits@,
            working: self.working,
        }
    }
}

impl RepairPass {
    /// A pass over `d` for `issues`: the dispatch list in pass order,
    /// nothing dispatched, the working corridor a copy of `d`.
    pub fn new(d: &Corridor, issues: &Vec<Issue>) -> (r: RepairPass)
        requires
            d.wf(),
        ensures
            r@.wf(),
            r@.start == *d,
            r@.labels.to_multiset() == pass_labels(issues@).to_multiset(),
            labels_sorted(r@.labels),
            r@.labels.last() == DispatchLabel::DynamicStall,
            r@.dispatched == 0,
            r@.edits == Seq::<(Point, bool)>::empty(),
    {
        let labels = dispatch_order(issues);
        let working = d.clone();
        RepairPass { labels, next: 0, working, edits: Vec::new(), start: Ghost(*d) }
    }

    /// The next label to dispatch, or `None` once every label has been.
    pub fn next_label(&self) -> (r: Option<DispatchLabel>)
        ensures
            r == (if self@.dispatched < self@.labels.len() {
                Some(self@.labels[self@.dispatched as int])
            } else {
                None
            }),
    {
        if self.next < self.labels.len() {
            Some(self.labels[self.next])
        } else {
            None
        }
    }

    /// The working corridor, as edited by every commit so far.
    pub fn working(&self) -> (r: &Corridor)
        ensures
            *r == self@.working,
    {
        &self.working
    }

    /// Records the dispatch of the next label: `Some((cell, drivable))`
    /// when its arm committed an edit, which is applied to the working
    /// corridor at once; `None` when it declined.
    pub fn record(&mut self, edit: Option<(Point, bool)>)
        requires
            old(self)@.wf(),
            old(self)@.dispatched < old(self)@.labels.len(),
        ensures
            final(self)@.wf(),
            final(self)@.start == old(self)@.start,
            final(self)@.labels == old(self)@.labels,
            final(self)@.dispatched == old(self)@.dispatched + 1,
            final(self)@.edits == match edit {
                Some(e) => old(self)@.edits.push(e),
                None => old(self)@.edits,
            },
            edits_flip(final(self)@.start, final(self)@.edits) == (edits_flip(old(self)@.start, old(self)@.edits) && (
            edit matches Some(e) ==> edit_flips(&old(self)@.working, e))),
    {
        let ghost w0 = self.working;
        let ghost e0 = self.edits@;
        if let Some((cell, drivable)) = edit {
            self.working.set(cell, drivable);
            self.edits.push((cell, drivable));
            proof {
                assert(self.edits@.drop_last() == old(self).edits@);
                assert forall|q: Point| #[trigger] self.working.has(q) == edited_has(self.start@, self.edits@, q) by {
                    assert(self.edits@.last() == (cell, drivable));
                }
            }
        }
        let count = self.labels.len();
        assert(self.next < count);
        self.next = self.next + 1;
        proof {
            let st = self.start@;
            if let Some(e) = edit {
                let es = self.edits@;
                assert(es.len() == e0.len() + 1);
                assert forall|i: int| 0 <= i < e0.len() implies #[trigger] es[i] == e0[i] && es.take(i) == e0.take(i) by {
                    assert(es.take(i) =~= e0.take(i));
                }
                assert(es.take(e0.len() as int) =~= e0);
                assert(es[e0.len() as int] == e);
                assert(w0.in_box(e.0) == st.in_box(e.0));
                assert(w0.has(e.0) == edited_has(st, e0, e.0));
                if edits_flip(st, es) {
                    assert forall|i: int| #![trigger e0[i]] 0 <= i < e0.len() implies st.in_box(e0[i].0) && edited_has(st, e0.take(i), e0[i].0) != e0[i].1 by {
                        assert(es[i] == e0[i]);
                    }
                    assert(st.in_box(es[e0.len() as int].0));
                }
                if edits_flip(st, e0) && edit_flips(&w0, e) {
                    assert forall|i: int| #![trigger es[i]] 0 <= i < es.len() implies st.in_box(es[i].0) && edited_has(st, es.take(i), es[i].0) != es[i].1 by {
                        if i < e0.len() {
                            assert(es[i] == e0[i]);
                        }
                    }
                }
            }
        }
    }

    /// The pass's outcome once every label has been dispatched: `None` (a
    /// failed pass, the reseed signal) exactly when no edit was committed;
    /// otherwise the edited corridor and the edits, in order.
    pub fn finish(&self) -> (r: Option<(Corridor, Vec<(Point, bool)>)>)
        requires
            self@.wf(),
            self@.dispatched == self@.labels.len(),
        ensures
            r is None <==> self@.edits.len() == 0,
            r matches Some((d, e)) ==> e@ == self@.edits && d.wf() && d.same_box(&self@.start) && forall|q: Point|
                #[trigger] d.has(q) == edited_has(self@.start, self@.edits, q),
    {
        if self.edits.len() == 0 {
            None
        } else {
            let mut edits: Vec<(Point, bool)> = Vec::new();
            let mut i: usize = 0;
            while i < self.edits.len()
                invariant
                    i <= self.edits@.len(),
                    edits@ == self.edits@.take(i as int),
                decreases self.edits@.len() - i,
            {
                edits.push(self.edits[i]);
                proof {
                    assert(self.edits@.take(i + 1) == self.edits@.take(i as int).push(self.edits@[i as int]));
                }
                i = i + 1;
            }
            proof {
                assert(self.edits@.take(self.edits@.len() as int) == self.edits@);
            }
            Some((self.working.clone(), edits))
        }
    }
}

} // verus!
