use gp_track::checks::Issue;
use gp_track::geom::Orient;
use gp_track::corridor::Corridor;
use gp_track::repair::{
    dispatch_order, recheck_scope, route, DeclineReason, DispatchLabel, RecheckScope, RepairArm, RepairPass, Route,
};

#[test]
fn recheck_scope_maps_add_arms_to_local() {
    assert_eq!(recheck_scope(RepairArm::PushOuterWallOut), RecheckScope::Local);
    assert_eq!(recheck_scope(RepairArm::FillInnerTooth), RecheckScope::Local);
    assert_eq!(recheck_scope(RepairArm::MapFrontierGap), RecheckScope::Local);
}

#[test]
fn recheck_scope_maps_run_out_arms_to_sink_to_sink() {
    assert_eq!(recheck_scope(RepairArm::LengthenStraight), RecheckScope::SinkToSink);
    assert_eq!(recheck_scope(RepairArm::WidenCorner), RecheckScope::SinkToSink);
}

#[test]
fn recheck_scope_maps_remove_arms_to_global_flood_fill() {
    assert_eq!(recheck_scope(RepairArm::TrimArmWall), RecheckScope::GlobalFloodFill);
    assert_eq!(recheck_scope(RepairArm::NudgeFinger), RecheckScope::GlobalFloodFill);
}

#[test]
fn issue_ord_matches_the_pinned_severity_table() {
    assert!(Issue::Disconnected < Issue::BadTopology);
    assert!(Issue::BadTopology < Issue::LostHairpin { tip: (0, 0) });
    assert!(Issue::LostHairpin { tip: (0, 0) } < Issue::ArmsMerging { bridge: (0, 0) });
    assert!(Issue::ArmsMerging { bridge: (0, 0) } < Issue::ConcaveChordCut { tooth: (0, 0) });
    assert!(
        Issue::ConcaveChordCut { tooth: (0, 0) }
            < Issue::Narrow { center: (0, 0), axis: Orient::Horizontal, width: 1 }
    );
    assert!(
        Issue::Narrow { center: (0, 0), axis: Orient::Horizontal, width: 1 }
            < Issue::NarrowSf { center: (0, 0), axis: Orient::Horizontal, width: 1 }
    );
    assert!(
        Issue::NarrowSf { center: (0, 0), axis: Orient::Horizontal, width: 1 } < Issue::NoBraking { at: (0, 0) }
    );
}

#[test]
fn dynamic_stall_sorts_after_every_issue() {
    let issues = [
        Issue::Disconnected,
        Issue::BadTopology,
        Issue::LostHairpin { tip: (0, 0) },
        Issue::ArmsMerging { bridge: (0, 0) },
        Issue::ConcaveChordCut { tooth: (0, 0) },
        Issue::Narrow { center: (0, 0), axis: Orient::Horizontal, width: 1 },
        Issue::NarrowSf { center: (0, 0), axis: Orient::Horizontal, width: 1 },
        Issue::NoBraking { at: (0, 0) },
    ];
    for v in issues {
        assert!(DispatchLabel::Issue(v) < DispatchLabel::DynamicStall);
    }
}

#[test]
fn dispatch_label_ord_orders_removes_before_adds_regardless_of_input_order() {
    let mut labels = [
        DispatchLabel::Issue(Issue::NoBraking { at: (0, 0) }),
        DispatchLabel::DynamicStall,
        DispatchLabel::Issue(Issue::ArmsMerging { bridge: (5, 5) }),
        DispatchLabel::Issue(Issue::Disconnected),
    ];
    labels.sort();
    assert_eq!(labels[0], DispatchLabel::Issue(Issue::Disconnected));
    assert_eq!(labels[1], DispatchLabel::Issue(Issue::ArmsMerging { bridge: (5, 5) }));
    assert_eq!(labels[2], DispatchLabel::Issue(Issue::NoBraking { at: (0, 0) }));
    assert_eq!(labels[3], DispatchLabel::DynamicStall);
}

#[test]
fn dispatch_label_ord_breaks_same_rank_ties_by_ascending_payload_point() {
    let a = DispatchLabel::Issue(Issue::ArmsMerging { bridge: (2, 2) });
    let b = DispatchLabel::Issue(Issue::ArmsMerging { bridge: (1, 1) });
    let mut labels = [a, b];
    labels.sort();
    assert_eq!(labels[0], DispatchLabel::Issue(Issue::ArmsMerging { bridge: (1, 1) }));
    assert_eq!(labels[1], DispatchLabel::Issue(Issue::ArmsMerging { bridge: (2, 2) }));
}

/// Every label kind, one payload each.
fn nine_labels() -> Vec<DispatchLabel> {
    vec![
        DispatchLabel::Issue(Issue::Disconnected),
        DispatchLabel::Issue(Issue::BadTopology),
        DispatchLabel::Issue(Issue::LostHairpin { tip: (0, 0) }),
        DispatchLabel::Issue(Issue::ArmsMerging { bridge: (0, 0) }),
        DispatchLabel::Issue(Issue::ConcaveChordCut { tooth: (0, 0) }),
        DispatchLabel::Issue(Issue::Narrow { center: (0, 0), axis: Orient::Horizontal, width: 1 }),
        DispatchLabel::Issue(Issue::NarrowSf { center: (0, 0), axis: Orient::Horizontal, width: 1 }),
        DispatchLabel::Issue(Issue::NoBraking { at: (0, 0) }),
        DispatchLabel::DynamicStall,
    ]
}

#[test]
fn dispatch_is_total_over_all_nine_labels_no_panic() {
    for label in nine_labels() {
        for (m, w) in [(false, false), (false, true), (true, false), (true, true)] {
            let _ = route(label, m, w);
        }
    }
}

#[test]
fn dispatch_declines_disconnected_and_bad_topology_as_not_repairable() {
    for label in [DispatchLabel::Issue(Issue::Disconnected), DispatchLabel::Issue(Issue::BadTopology)] {
        assert_eq!(route(label, true, true), Route::Decline(DeclineReason::NotRepairable));
    }
}

#[test]
fn each_issue_routes_to_its_arm() {
    assert_eq!(route(DispatchLabel::Issue(Issue::LostHairpin { tip: (1, 1) }), false, false), Route::Arm(RepairArm::NudgeFinger));
    assert_eq!(route(DispatchLabel::Issue(Issue::ArmsMerging { bridge: (1, 1) }), false, false), Route::Arm(RepairArm::TrimArmWall));
    assert_eq!(
        route(DispatchLabel::Issue(Issue::ConcaveChordCut { tooth: (1, 1) }), false, false),
        Route::Arm(RepairArm::FillInnerTooth)
    );
    for axis in [Orient::Horizontal, Orient::Vertical] {
        assert_eq!(
            route(DispatchLabel::Issue(Issue::Narrow { center: (1, 1), axis, width: 2 }), false, false),
            Route::Arm(RepairArm::PushOuterWallOut)
        );
        assert_eq!(
            route(DispatchLabel::Issue(Issue::NarrowSf { center: (1, 1), axis, width: 2 }), false, false),
            Route::Arm(RepairArm::PushOuterWallOut)
        );
    }
}

#[test]
fn the_oracle_arms_decline_without_their_input() {
    let no_braking = DispatchLabel::Issue(Issue::NoBraking { at: (2, 3) });
    assert_eq!(route(no_braking, false, true), Route::Decline(DeclineReason::MissingOracleInput));
    assert_eq!(route(no_braking, true, false), Route::RunOut);
    assert_eq!(route(DispatchLabel::DynamicStall, true, false), Route::Decline(DeclineReason::MissingOracleInput));
    assert_eq!(route(DispatchLabel::DynamicStall, false, true), Route::Arm(RepairArm::MapFrontierGap));
}

#[test]
fn dispatch_order_matches_the_derived_order() {
    let issues = vec![
        Issue::NoBraking { at: (0, 0) },
        Issue::Narrow { center: (2, 1), axis: Orient::Vertical, width: 1 },
        Issue::ArmsMerging { bridge: (5, 5) },
        Issue::Narrow { center: (2, 1), axis: Orient::Horizontal, width: 3 },
        Issue::Narrow { center: (2, 1), axis: Orient::Horizontal, width: 2 },
        Issue::Disconnected,
        Issue::NarrowSf { center: (-1, 4), axis: Orient::Horizontal, width: 1 },
        Issue::ArmsMerging { bridge: (1, 9) },
        Issue::ArmsMerging { bridge: (1, -9) },
        Issue::LostHairpin { tip: (3, 3) },
        Issue::ConcaveChordCut { tooth: (0, 7) },
        Issue::BadTopology,
        Issue::NoBraking { at: (0, 0) },
    ];
    let mut expected: Vec<DispatchLabel> = issues.iter().map(|&i| DispatchLabel::Issue(i)).collect();
    expected.push(DispatchLabel::DynamicStall);
    expected.sort();
    assert_eq!(dispatch_order(&issues), expected);
    let mut reversed = issues.clone();
    reversed.reverse();
    assert_eq!(dispatch_order(&reversed), expected);
}

#[test]
fn ac4_failed_iff_zero_edits_committed() {
    let d = Corridor::filled((0, 0), 5, 5);
    let issues = vec![Issue::Disconnected, Issue::BadTopology];
    let mut pass = RepairPass::new(&d, &issues);
    while let Some(label) = pass.next_label() {
        let edit = match route(label, false, false) {
            Route::Decline(_) => None,
            _ => panic!("every label here declines"),
        };
        pass.record(edit);
    }
    assert!(pass.finish().is_none());
}

#[test]
fn a_pass_applies_each_edit_before_the_next_dispatch() {
    let d = Corridor::filled((0, 0), 5, 5);
    let issues = vec![Issue::ConcaveChordCut { tooth: (2, 2) }, Issue::ArmsMerging { bridge: (1, 1) }];
    let mut pass = RepairPass::new(&d, &issues);
    assert_eq!(pass.next_label(), Some(DispatchLabel::Issue(Issue::ArmsMerging { bridge: (1, 1) })));
    pass.record(Some(((1, 1), false)));
    assert!(!pass.working().contains((1, 1)));
    assert_eq!(pass.next_label(), Some(DispatchLabel::Issue(Issue::ConcaveChordCut { tooth: (2, 2) })));
    pass.record(None);
    assert_eq!(pass.next_label(), Some(DispatchLabel::DynamicStall));
    pass.record(Some(((3, 3), false)));
    assert_eq!(pass.next_label(), None);
    let (repaired, edits) = pass.finish().expect("two edits were committed");
    assert_eq!(edits, vec![((1, 1), false), ((3, 3), false)]);
    for edit in &edits {
        assert_eq!(repaired.contains(edit.0), edit.1);
        assert_ne!(d.contains(edit.0), edit.1);
    }
    let mut diffs = 0;
    for y in 0..5 {
        for x in 0..5 {
            if d.contains((x, y)) != repaired.contains((x, y)) {
                diffs += 1;
            }
        }
    }
    assert_eq!(diffs, edits.len());
}

#[test]
fn permuted_issues_give_the_same_pass_order() {
    let d = Corridor::new((0, 0), 4, 4);
    let a = vec![
        Issue::Narrow { center: (2, 1), axis: Orient::Vertical, width: 1 },
        Issue::LostHairpin { tip: (3, 3) },
        Issue::Disconnected,
        Issue::Narrow { center: (1, 1), axis: Orient::Horizontal, width: 2 },
    ];
    let b = vec![a[3], a[2], a[0], a[1]];
    let order = |issues: &Vec<Issue>| {
        let mut pass = RepairPass::new(&d, issues);
        let mut labels = Vec::new();
        while let Some(label) = pass.next_label() {
            labels.push(label);
            pass.record(None);
        }
        labels
    };
    let la = order(&a);
    assert_eq!(la, order(&b));
    assert_eq!(la[0], DispatchLabel::Issue(Issue::Disconnected));
    assert_eq!(la[1], DispatchLabel::Issue(Issue::LostHairpin { tip: (3, 3) }));
    assert_eq!(la[2], DispatchLabel::Issue(a[3]));
    assert_eq!(la[3], DispatchLabel::Issue(a[0]));
    assert_eq!(la[4], DispatchLabel::DynamicStall);
}

#[test]
fn each_committed_edit_flips_one_cell() {
    let d = Corridor::new((0, 0), 4, 4);
    let issues = vec![Issue::Disconnected, Issue::BadTopology];
    let mut pass = RepairPass::new(&d, &issues);
    let mut edits = vec![Some(((1, 1), true)), None, Some(((2, 3), true))].into_iter();
    while pass.next_label().is_some() {
        pass.record(edits.next().unwrap());
    }
    let (repaired, committed) = pass.finish().expect("two edits were committed");
    assert_eq!(committed, vec![((1, 1), true), ((2, 3), true)]);
    let mut changed = 0;
    for x in 0..4 {
        for y in 0..4 {
            if repaired.contains((x, y)) != d.contains((x, y)) {
                changed += 1;
            }
        }
    }
    assert_eq!(changed, committed.len());
}
