use gp_track::arms::{
    add_edit_wall, dispatch_corridor_arm, fill_inner_tooth, first_admissible_remove, is_concave_chord_cut, nudge_finger, push_outer_wall_out, trim_arm_wall, remove_edit_wall, wall_neighbor, ArmOutcome, Wall,
};
use gp_track::components::{bounded_complement_components, component_count};
use gp_track::geom::RaceDir;
use gp_track::skeleton::CoarseSkeleton;
use std::collections::BTreeSet;
use gp_track::checks::axis_width;
use gp_track::corridor::Corridor;
use gp_track::geom::{Orient, Side};
use gp_track::repair::{recheck_scope, DeclineReason, DispatchLabel, RecheckScope, RepairArm};
use gp_track::checks::Issue;

fn neck_d() -> Corridor {
    let mut drivable = Vec::new();
    for x in 0..7 {
        if x == 3 {
            drivable.push((x, 2));
        } else {
            for y in 1..4 {
                drivable.push((x, y));
            }
        }
    }
    let mut d = Corridor::new((0, 0), 7, 5);
    for (x, y) in drivable {
        d.set((x, y), true);
    }
    d
}

#[test]
fn push_outer_wall_out_strictly_grows_the_width_on_the_neck_fixture() {
    let d = neck_d();
    let center = (3, 2);
    let before = axis_width(&d, center, Orient::Vertical);
    let ArmOutcome::Edit(edit) = push_outer_wall_out(&d, center, Orient::Vertical) else {
        panic!("expected an Edit on the neck fixture");
    };
    assert_eq!(edit.arm, RepairArm::PushOuterWallOut);
    assert!(edit.drivable);
    assert_eq!(edit.recheck, recheck_scope(RepairArm::PushOuterWallOut));
    assert_eq!(wall_neighbor(edit.wall), Some(edit.cell));
    let mut scratch = d.clone();
    scratch.set(edit.cell, true);
    let after = axis_width(&scratch, center, Orient::Vertical);
    assert!(after > before, "width must strictly grow: {before} -> {after}");
    assert_eq!(edit.wall, Wall { cell: center, side: Side::North });
    assert_eq!(edit.cell, (3, 3));
}

#[test]
fn push_outer_wall_out_declines_when_both_cap_walls_lack_bounding_box_headroom() {
    let d = Corridor::filled((0, 0), 5, 1);
    assert_eq!(push_outer_wall_out(&d, (2, 0), Orient::Vertical), ArmOutcome::NoEdit(DeclineReason::NoCandidate));
}

#[test]
fn push_outer_wall_out_declines_a_stale_center() {
    let d = neck_d();
    assert_eq!(push_outer_wall_out(&d, (3, 1), Orient::Vertical), ArmOutcome::NoEdit(DeclineReason::StalePayload));
}

#[test]
fn push_outer_wall_out_takes_the_cap_that_gains_more() {
    // A horizontal chord on row 0 from x = 1 to 2; west of it (0, 0) opens
    // onto a long drivable run, east of it (3, 0) onto nothing.
    let mut d = Corridor::new((-4, 0), 9, 1);
    for x in [-4, -3, -2, -1, 1, 2] {
        d.set((x, 0), true);
    }
    let ArmOutcome::Edit(edit) = push_outer_wall_out(&d, (1, 0), Orient::Horizontal) else {
        panic!("expected an Edit");
    };
    assert_eq!(edit.wall, Wall { cell: (1, 0), side: Side::West });
    assert_eq!(edit.cell, (0, 0));
}

fn strip() -> Corridor {
    let mut d = Corridor::new((0, 0), 5, 1);
    for x in 1..=3 {
        d.set((x, 0), true);
    }
    d
}

#[test]
fn remove_edit_wall_picks_the_canonical_min_wall_sort_key() {
    let d = strip();
    let w = remove_edit_wall(&d, (1, 0)).expect("must find a candidate");
    assert_eq!(w.cell, (1, 0));
}

#[test]
fn remove_edit_wall_declines_a_d_interior_cell() {
    let d = Corridor::filled((0, 0), 3, 3);
    assert_eq!(remove_edit_wall(&d, (1, 1)), None);
}

#[test]
fn remove_edit_wall_declines_a_non_drivable_cell() {
    let d = strip();
    assert_eq!(remove_edit_wall(&d, (0, 0)), None);
}

#[test]
fn remove_edit_wall_names_an_open_side() {
    let d = strip();
    let w = remove_edit_wall(&d, (2, 0)).expect("a strip cell is on the boundary");
    assert_eq!(w.cell, (2, 0));
    let across = wall_neighbor(w).unwrap();
    assert!(!d.contains(across));
}

fn two_rooms() -> Corridor {
    let mut d = Corridor::new((0, 0), 9, 9);
    for y in 0..9 {
        for x in 0..3 {
            d.set((x, y), true);
        }
        for x in 6..9 {
            d.set((x, y), true);
        }
    }
    for x in 3..=5 {
        d.set((x, 4), true);
    }
    d
}

fn arms_skel() -> CoarseSkeleton {
    CoarseSkeleton { ring: BTreeSet::new(), hole: [(1, 1)].into_iter().collect(), dir: RaceDir::Cw }
}

#[test]
fn ac2_remove_edit_that_disconnects_d_is_rejected_proving_global_flood_fill_ran() {
    let d = two_rooms();
    assert!(matches!(
        trim_arm_wall(&d, &arms_skel(), 3, (3, 4)),
        ArmOutcome::NoEdit(DeclineReason::RecheckFailed)
    ));
}

#[test]
fn trim_arm_wall_rejects_every_candidate_when_all_would_disconnect_d() {
    let d = two_rooms();
    assert!(matches!(
        trim_arm_wall(&d, &arms_skel(), 3, (3, 4)),
        ArmOutcome::NoEdit(DeclineReason::RecheckFailed)
    ));
    let candidates = vec![(3, 4), (4, 4), (5, 4)];
    assert!(matches!(
        first_admissible_remove(&d, &candidates, RepairArm::TrimArmWall),
        ArmOutcome::NoEdit(DeclineReason::RecheckFailed)
    ));
}

#[test]
fn trim_arm_wall_clears_a_one_cell_infield_intrusion() {
    let mut d = Corridor::filled((0, 0), 9, 9);
    for x in 3..=5 {
        for y in 3..=5 {
            d.set((x, y), false);
        }
    }
    d.set((4, 4), true);
    let ArmOutcome::Edit(edit) = trim_arm_wall(&d, &arms_skel(), 3, (4, 4)) else {
        panic!("expected an Edit clearing the intrusion");
    };
    assert_eq!(edit.arm, RepairArm::TrimArmWall);
    assert_eq!(edit.cell, (4, 4));
    assert!(!edit.drivable);
    assert_eq!(edit.recheck, RecheckScope::GlobalFloodFill);
    let mut scratch = d.clone();
    scratch.set(edit.cell, false);
    assert_eq!(component_count(&scratch), 1);
    assert_eq!(bounded_complement_components(&scratch), 1);
}

#[test]
fn trim_arm_wall_declines_a_bridge_outside_the_hole_mask() {
    let d = two_rooms();
    assert!(matches!(trim_arm_wall(&d, &arms_skel(), 3, (1, 1)), ArmOutcome::NoEdit(DeclineReason::StalePayload)));
    assert!(matches!(trim_arm_wall(&d, &arms_skel(), 3, (4, 3)), ArmOutcome::NoEdit(DeclineReason::StalePayload)));
}

#[test]
fn first_admissible_remove_without_an_admissible_candidate_declines() {
    let d = Corridor::filled((0, 0), 3, 3);
    assert!(matches!(
        first_admissible_remove(&d, &vec![(1, 1), (7, 7)], RepairArm::NudgeFinger),
        ArmOutcome::NoEdit(DeclineReason::NoCandidate)
    ));
    assert!(matches!(
        first_admissible_remove(&d, &vec![], RepairArm::NudgeFinger),
        ArmOutcome::NoEdit(DeclineReason::NoCandidate)
    ));
}

fn finger_fixture() -> (Corridor, CoarseSkeleton) {
    let mut d = Corridor::filled((0, 0), 21, 21);
    for y in 6..15 {
        for x in 6..15 {
            d.set((x, y), false);
        }
    }
    for x in 15..18 {
        for y in 9..12 {
            d.set((x, y), true);
        }
    }
    let mut hole: BTreeSet<(i32, i32)> = BTreeSet::new();
    for x in 2..5 {
        for y in 2..5 {
            hole.insert((x, y));
        }
    }
    hole.insert((5, 3));
    (d, CoarseSkeleton { ring: BTreeSet::new(), hole, dir: RaceDir::Cw })
}

#[test]
fn nudge_finger_reopens_an_absorbed_finger_at_its_boundary_cell() {
    let (d, skel) = finger_fixture();
    let ArmOutcome::Edit(edit) = nudge_finger(&d, &skel, 3, (5, 3)) else {
        panic!("expected an Edit re-opening the finger");
    };
    assert_eq!(edit.arm, RepairArm::NudgeFinger);
    assert!(!edit.drivable);
    assert_eq!(edit.cell, (15, 9));
    assert_eq!(edit.wall.cell, edit.cell);
    let mut scratch = d.clone();
    scratch.set(edit.cell, false);
    assert!(!scratch.contains((15, 9)));
    assert_eq!(component_count(&scratch), 1);
    assert_eq!(bounded_complement_components(&scratch), 1);
}

#[test]
fn nudge_finger_declines_a_stale_tip() {
    let (d, skel) = finger_fixture();
    assert!(matches!(nudge_finger(&d, &skel, 3, (3, 3)), ArmOutcome::NoEdit(DeclineReason::StalePayload)));
    let mut reopened = d.clone();
    reopened.set((16, 10), false);
    assert!(matches!(nudge_finger(&reopened, &skel, 3, (5, 3)), ArmOutcome::NoEdit(DeclineReason::StalePayload)));
}

#[test]
fn add_edit_wall_picks_the_canonical_min_wall_sort_key() {
    let d = strip();
    let w = add_edit_wall(&d, (0, 0)).expect("must find a candidate");
    assert_eq!(w, Wall { cell: (1, 0), side: Side::West });
    assert_eq!(wall_neighbor(w), Some((0, 0)));
}

#[test]
fn add_edit_wall_declines_an_out_of_box_target() {
    let d = strip();
    assert_eq!(add_edit_wall(&d, (99, 0)), None);
}

#[test]
fn add_edit_wall_declines_an_already_drivable_target() {
    let d = strip();
    assert_eq!(add_edit_wall(&d, (2, 0)), None);
}

fn notched_ring() -> Corridor {
    let mut d = Corridor::filled((0, 0), 7, 7);
    for x in 2..=4 {
        for y in 2..=4 {
            d.set((x, y), false);
        }
    }
    d.set((3, 1), false);
    d
}

#[test]
fn fill_inner_tooth_fills_a_notch_in_the_inner_wall() {
    let d = notched_ring();
    assert!(is_concave_chord_cut(&d, (3, 1)));
    let ArmOutcome::Edit(edit) = fill_inner_tooth(&d, (3, 1)) else {
        panic!("expected the notch to be filled");
    };
    assert_eq!(edit.arm, RepairArm::FillInnerTooth);
    assert!(edit.drivable);
    assert_eq!(edit.cell, (3, 1));
    assert_eq!(edit.recheck, RecheckScope::Local);
    assert!(d.contains(edit.wall.cell));
    assert_eq!(wall_neighbor(edit.wall), Some((3, 1)));
    let mut filled = d.clone();
    filled.set(edit.cell, true);
    assert_eq!(bounded_complement_components(&filled), 1);
}

#[test]
fn fill_inner_tooth_declines_a_stale_tooth() {
    let d = notched_ring();
    assert!(!is_concave_chord_cut(&d, (3, 3)));
    assert!(matches!(fill_inner_tooth(&d, (3, 0)), ArmOutcome::NoEdit(DeclineReason::StalePayload)));
    assert!(matches!(fill_inner_tooth(&d, (3, 3)), ArmOutcome::NoEdit(DeclineReason::StalePayload)));
}

#[test]
fn dispatch_sends_each_static_label_to_its_corridor_arm() {
    let d = neck_d();
    let skel = arms_skel();
    assert_eq!(
        dispatch_corridor_arm(&d, &skel, 3, DispatchLabel::Issue(Issue::Disconnected)),
        Some(ArmOutcome::NoEdit(DeclineReason::NotRepairable))
    );
    assert_eq!(dispatch_corridor_arm(&d, &skel, 3, DispatchLabel::Issue(Issue::NoBraking { at: (1, 2) })), None);
    assert_eq!(dispatch_corridor_arm(&d, &skel, 3, DispatchLabel::DynamicStall), None);
    let narrow = Issue::Narrow { center: (3, 2), axis: Orient::Vertical, width: 1 };
    assert_eq!(
        dispatch_corridor_arm(&d, &skel, 3, DispatchLabel::Issue(narrow)),
        Some(push_outer_wall_out(&d, (3, 2), Orient::Vertical))
    );
    assert!(matches!(
        dispatch_corridor_arm(&d, &skel, 3, DispatchLabel::Issue(narrow)),
        Some(ArmOutcome::Edit(e)) if e.arm == RepairArm::PushOuterWallOut
    ));
    let (fd, fskel) = finger_fixture();
    assert!(matches!(
        dispatch_corridor_arm(&fd, &fskel, 3, DispatchLabel::Issue(Issue::LostHairpin { tip: (5, 3) })),
        Some(ArmOutcome::Edit(e)) if e.arm == RepairArm::NudgeFinger && e.cell == (15, 9)
    ));
}
