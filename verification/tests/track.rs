use gp_track::corridor::Corridor;
use gp_track::geom::{Orient, RaceDir, Side};
use gp_track::skeleton::CoarseSkeleton;
use gp_track::track::{
    axis_for_inward, forward_side, opposite_side, perp_orient, phase3_start_finish,
    side_from_unit_delta,
};
use std::collections::BTreeSet;

const SIDES: [Side; 4] = [Side::East, Side::West, Side::North, Side::South];

#[test]
fn forward_side_matches_ccw_rotation_formula() {
    for inward in SIDES {
        let (ix, iy) = inward.delta();
        assert_eq!(forward_side(RaceDir::Ccw, inward).delta(), (iy, -ix));
    }
}

#[test]
fn forward_side_matches_cw_rotation_formula() {
    for inward in SIDES {
        let (ix, iy) = inward.delta();
        assert_eq!(forward_side(RaceDir::Cw, inward).delta(), (-iy, ix));
    }
}

#[test]
fn forward_side_worked_rectangle_example() {
    assert_eq!(forward_side(RaceDir::Ccw, Side::North), Side::East);
    assert_eq!(forward_side(RaceDir::Cw, Side::North), Side::West);
}

#[test]
fn axis_for_inward_is_perpendicular_to_the_hole_facing_side() {
    assert_eq!(axis_for_inward(Side::North), Orient::Horizontal);
    assert_eq!(axis_for_inward(Side::South), Orient::Horizontal);
    assert_eq!(axis_for_inward(Side::East), Orient::Vertical);
    assert_eq!(axis_for_inward(Side::West), Orient::Vertical);
}

#[test]
fn perp_orient_round_trips() {
    assert_eq!(perp_orient(Orient::Horizontal), Orient::Vertical);
    assert_eq!(perp_orient(Orient::Vertical), Orient::Horizontal);
    assert_eq!(perp_orient(perp_orient(Orient::Horizontal)), Orient::Horizontal);
}

#[test]
fn opposite_side_round_trips() {
    for s in SIDES {
        assert_eq!(opposite_side(opposite_side(s)), s);
    }
    assert_eq!(opposite_side(Side::East), Side::West);
    assert_eq!(opposite_side(Side::North), Side::South);
}

#[test]
fn side_from_unit_delta_falls_back_to_east() {
    assert_eq!(side_from_unit_delta(0, -1), Side::South);
    assert_eq!(side_from_unit_delta(-1, 0), Side::West);
    assert_eq!(side_from_unit_delta(3, 3), Side::East);
}

#[test]
fn phase3_seats_m_cars_abreast_behind_a_chord_on_the_western_wall() {
    let mut d = Corridor::new((0, 0), 3, 3);
    d.set((1, 1), true);
    d.set((2, 2), true);
    let skel = CoarseSkeleton { ring: BTreeSet::new(), hole: BTreeSet::new(), dir: RaceDir::Cw };
    let out = phase3_start_finish(d, &skel, 4, 7);
    assert_eq!(out.sf.orient, Orient::Horizontal);
    assert_eq!(out.sf.gate.forward, Side::North);
    assert_eq!(out.sf.chord, vec![(1, 1), (0, 1), (-1, 1), (-2, 1)]);
    assert_eq!(out.sf.gate.behind, vec![(1, 0), (0, 0), (-1, 0), (-2, 0)]);
    assert_eq!(out.grid.positions, vec![(1, -1), (0, -1), (-1, -1), (-2, -1)]);
    for p in out.sf.chord.iter().chain(out.sf.gate.behind.iter()).chain(out.grid.positions.iter()) {
        assert!(out.d.contains(*p), "{p:?} must be drivable");
    }
    assert!(out.d.contains((2, 2)));
    assert!(!out.d.contains((2, 0)));
}

#[test]
fn phase3_faces_south_counter_clockwise_and_seats_one_car_for_zero() {
    let d = Corridor::new((0, 0), 2, 2);
    let skel = CoarseSkeleton { ring: BTreeSet::new(), hole: BTreeSet::new(), dir: RaceDir::Ccw };
    let out = phase3_start_finish(d, &skel, 0, 5);
    assert_eq!(out.sf.gate.forward, Side::South);
    assert_eq!(out.sf.chord, vec![(0, 0)]);
    assert_eq!(out.sf.gate.behind, vec![(0, 1)]);
    assert_eq!(out.grid.positions, vec![(0, 2)]);
    assert!(out.d.contains((0, 2)));
}
