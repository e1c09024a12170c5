use gp_track::checks::{
    absorbed, axis_width, check_connectivity, check_narrow_sf, check_topology, hole_degree, infield_fingers,
    walk_finger, wall_run, wall_runs, Issue,
};
use gp_track::corridor::Corridor;
use gp_track::geom::{Orient, Point, RaceDir, Side};
use gp_track::skeleton::CoarseSkeleton;
use gp_track::track::{StartFinish, TimingGate};
use std::collections::{BTreeSet, HashSet};

fn corridor(origin: (i32, i32), w: usize, h: usize, drivable: &[(i32, i32)]) -> Corridor {
    let mut d = Corridor::new(origin, w, h);
    for &p in drivable {
        d.set(p, true);
    }
    d
}

fn rect(x0: i32, x1: i32, y0: i32, y1: i32) -> Vec<(i32, i32)> {
    (y0..=y1).flat_map(|y| (x0..=x1).map(move |x| (x, y))).collect()
}

#[test]
fn connectivity_single_component_has_no_disconnected_issue() {
    let d = corridor((0, 0), 5, 5, &rect(1, 3, 1, 3));
    assert_eq!(check_connectivity(&d), None);
}

#[test]
fn connectivity_two_components_trips_disconnected() {
    let d = corridor((0, 0), 5, 5, &[(0, 0), (1, 0), (3, 3), (4, 3)]);
    assert_eq!(check_connectivity(&d), Some(Issue::Disconnected));
}

#[test]
fn topology_valid_annulus_has_no_bad_topology_issue() {
    let ring: Vec<_> = rect(1, 3, 1, 3).into_iter().filter(|&p| p != (2, 2)).collect();
    let d = corridor((0, 0), 5, 5, &ring);
    assert_eq!(check_topology(&d), None);
}

#[test]
fn topology_disk_has_bad_topology_issue() {
    let d = corridor((0, 0), 5, 5, &rect(1, 3, 1, 3));
    assert_eq!(check_topology(&d), Some(Issue::BadTopology));
}

#[test]
fn topology_two_holes_trips_bad_topology() {
    let cells: Vec<_> = rect(0, 4, 0, 2).into_iter().filter(|&p| p != (1, 1) && p != (3, 1)).collect();
    let d = corridor((-1, -1), 7, 5, &cells);
    assert_eq!(check_topology(&d), Some(Issue::BadTopology));
}

fn sf_fixture(chord: &[(i32, i32)], orient: Orient) -> StartFinish {
    StartFinish {
        chord: chord.to_vec(),
        orient,
        gate: TimingGate { behind: vec![], forward: Side::East },
    }
}

#[test]
fn narrow_sf_below_floor_emits_issue_keyed_on_min_point() {
    let sf = sf_fixture(&[(5, 2), (5, 1)], Orient::Vertical);
    assert_eq!(
        check_narrow_sf(&sf, 3),
        Some(Issue::NarrowSf { center: (5, 1), axis: Orient::Vertical, width: 2 })
    );
}

#[test]
fn narrow_sf_at_or_above_floor_emits_none() {
    let sf = sf_fixture(&[(5, 1), (5, 2), (5, 3)], Orient::Vertical);
    assert_eq!(check_narrow_sf(&sf, 3), None);
    assert_eq!(check_narrow_sf(&sf, 2), None);
    assert_eq!(check_narrow_sf(&sf_fixture(&[], Orient::Horizontal), 3), None);
}

#[test]
fn wall_run_counts_consecutive_drivable_cells() {
    let d = corridor((0, 0), 5, 1, &[(0, 0), (1, 0), (2, 0)]);
    assert_eq!(wall_run(&d, (0, 0), (1, 0)), 3);
    assert_eq!(wall_run(&d, (2, 0), (-1, 0)), 3);
    assert_eq!(wall_run(&d, (4, 0), (1, 0)), 0);
    assert_eq!(wall_runs(&d, (1, 0)), (2, 2, 1, 1));
}

fn skeleton_with_one_cell_peninsula() -> CoarseSkeleton {
    let hole: BTreeSet<Point> = [(0, 0), (1, 0), (2, 0), (0, 1), (1, 1), (2, 1), (1, 2)].into_iter().collect();
    CoarseSkeleton { ring: BTreeSet::new(), hole, dir: RaceDir::Ccw }
}

#[test]
fn infield_fingers_finds_the_one_cell_peninsula_keyed_by_its_tip() {
    let skel = skeleton_with_one_cell_peninsula();
    let fingers = infield_fingers(&skel);
    assert_eq!(fingers.len(), 1);
    assert_eq!(fingers.get(&(1, 2)), Some(&vec![(1, 2)]));
    assert_eq!(hole_degree(&skel.hole, (1, 2)), 1);
    assert_eq!(hole_degree(&skel.hole, (1, 1)), 4);
}

#[test]
fn walk_finger_follows_a_chain_to_the_branch() {
    let hole: BTreeSet<Point> = [(0, 0), (1, 0), (2, 0), (1, 1), (1, 2), (1, 3)].into_iter().collect();
    assert_eq!(walk_finger(&hole, (1, 3)), vec![(1, 3), (1, 2), (1, 1)]);
    let line: BTreeSet<Point> = (0..4).map(|x| (x, 0)).collect();
    assert_eq!(walk_finger(&line, (0, 0)), vec![(0, 0), (1, 0), (2, 0), (3, 0)]);
}

#[test]
fn finger_alive_when_footprint_not_drivable() {
    let d = Corridor::new((0, 0), 9, 9);
    assert!(!absorbed(&vec![(1, 2)], &d, 3));
}

#[test]
fn finger_absorbed_when_footprint_fully_drivable() {
    let d = corridor((0, 0), 9, 9, &rect(3, 5, 6, 8));
    assert!(absorbed(&vec![(1, 2)], &d, 3));
    let partial = corridor((0, 0), 9, 9, &rect(3, 5, 6, 7));
    assert!(!absorbed(&vec![(1, 2)], &partial, 3));
}

#[test]
fn issue_variants_are_eq_hash_and_order_independent_in_a_set() {
    let a = Issue::Narrow { center: (1, 1), axis: Orient::Horizontal, width: 2 };
    let b = Issue::LostHairpin { tip: (3, 3) };
    let set: HashSet<Issue> = [a, Issue::Disconnected, Issue::BadTopology, b].into_iter().collect();
    assert_eq!(set.len(), 4);
    assert!(set.contains(&a));
    assert!(set.contains(&Issue::Disconnected));
}

#[test]
fn axis_width_vertical_reads_the_vertical_run() {
    let mut drivable = Vec::new();
    for x in 0..7 {
        if x == 3 {
            drivable.push((x, 2));
        } else {
            for y in 1..4 {
                drivable.push((x, y));
            }
        }
    }
    let d = corridor((0, 0), 7, 5, &drivable);
    assert_eq!(axis_width(&d, (3, 2), Orient::Vertical), 1);
}

#[test]
fn axis_width_horizontal_reads_the_horizontal_run() {
    let d = corridor((0, 0), 9, 9, &rect(0, 8, 0, 8));
    assert_eq!(axis_width(&d, (4, 4), Orient::Horizontal), 9);
}

#[test]
fn axis_width_matches_narrow_at_derived_width_on_the_neck_fixture() {
    let mut d = Corridor::filled((0, 0), 21, 21);
    for y in 6..15 {
        for x in 6..15 {
            d.set((x, y), false);
        }
    }
    for x in [0, 1, 3, 4, 5] {
        d.set((x, 10), false);
    }
    assert_eq!(axis_width(&d, (2, 10), Orient::Horizontal), 1);
}

#[test]
fn axis_width_of_a_non_drivable_cell_is_zero() {
    let d = corridor((0, 0), 5, 5, &rect(1, 3, 1, 3));
    assert_eq!(axis_width(&d, (0, 0), Orient::Horizontal), 0);
    assert_eq!(axis_width(&d, (2, 2), Orient::Vertical), 3);
}
