use gp_track::centerline::{degree, orient, prune_spurs, shoelace};
use gp_track::geom::{Point, RaceDir};
use std::collections::BTreeSet;

fn small_ring() -> BTreeSet<Point> {
    BTreeSet::from([
        (0, 0),
        (1, 0),
        (2, 0),
        (3, 0),
        (3, 1),
        (3, 2),
        (3, 3),
        (2, 3),
        (1, 3),
        (0, 3),
        (0, 2),
        (0, 1),
    ])
}

#[test]
fn prune_spurs_is_a_no_op_on_a_clean_loop() {
    let ring = small_ring();
    assert_eq!(prune_spurs(&ring), Some(ring));
}

#[test]
fn prune_spurs_removes_a_dangling_finger() {
    let mut with_finger = small_ring();
    with_finger.insert((1, -1));
    with_finger.insert((1, -2));
    let core = prune_spurs(&with_finger).expect("the ring survives pruning");
    assert_eq!(core, small_ring());
    for &p in &core {
        assert!(degree(&core, p) >= 2, "{p:?} must have degree >= 2");
    }
}

#[test]
fn prune_spurs_rejects_a_pure_tree() {
    let tree = BTreeSet::from([(0, 0), (1, 0), (2, 0)]);
    assert!(prune_spurs(&tree).is_none());
}

#[test]
fn prune_spurs_keeps_two_loops_joined_by_a_bridge() {
    let mut two = small_ring();
    for &(x, y) in &small_ring() {
        two.insert((x + 6, y));
    }
    two.insert((4, 0));
    two.insert((5, 0));
    assert_eq!(prune_spurs(&two), Some(two.clone()));
}

#[test]
fn shoelace_ccw_unit_square_is_positive_two() {
    let square = vec![(0, 0), (1, 0), (1, 1), (0, 1)];
    assert_eq!(shoelace(&square), 2);
}

#[test]
fn shoelace_cw_unit_square_is_negative_two() {
    let mut square = vec![(0, 0), (1, 0), (1, 1), (0, 1)];
    square.reverse();
    assert_eq!(shoelace(&square), -2);
}

#[test]
fn shoelace_of_a_two_by_three_rectangle() {
    let rect = vec![(0, 0), (2, 0), (2, 3), (0, 3)];
    assert_eq!(shoelace(&rect), 12);
}

#[test]
fn orient_matches_race_dir_sign() {
    let ccw_square = vec![(0, 0), (1, 0), (1, 1), (0, 1)];
    assert!(shoelace(&orient(ccw_square.clone(), RaceDir::Ccw)) > 0);
    assert!(shoelace(&orient(ccw_square, RaceDir::Cw)) < 0);
}

#[test]
fn orient_reverses_only_when_needed() {
    let ccw_square = vec![(0, 0), (1, 0), (1, 1), (0, 1)];
    assert_eq!(orient(ccw_square.clone(), RaceDir::Ccw), ccw_square);
    let mut reversed = ccw_square.clone();
    reversed.reverse();
    assert_eq!(orient(ccw_square, RaceDir::Cw), reversed);
}
