use gp_track::skeleton::{
    CoarseSkeleton, build_p, clamp_l_min, corridor_from_cells, fill_holes, max_straight_runs, phase1_coarse_ring,
    phase1_coarse_ring_attempts, rectangular_fallback, ring_from_p, widen, MAX_ATTEMPTS,
    MAX_COARSE_STRAIGHT, MIN_COARSE_STRAIGHT,
};
use gp_track::components::{bounded_complement_components, component_count};
use gp_track::geom::{Point, RaceDir};
use gp_track::params::Seeds;
use rand::SeedableRng;
use rand_xoshiro::Xoshiro256PlusPlus;
use std::collections::BTreeSet;


/// A generator seeded with `seed`.
fn rng(seed: u64) -> Xoshiro256PlusPlus {
    Xoshiro256PlusPlus::seed_from_u64(seed)
}

#[test]
fn clamp_l_min_maps_in_domain_value_to_itself() {
    assert_eq!(clamp_l_min(5), 5);
    assert_eq!(clamp_l_min(MIN_COARSE_STRAIGHT), MIN_COARSE_STRAIGHT);
    assert_eq!(clamp_l_min(MAX_COARSE_STRAIGHT), MAX_COARSE_STRAIGHT);
}

#[test]
fn clamp_l_min_clamps_out_of_domain_extremes() {
    assert_eq!(clamp_l_min(i32::MAX), MAX_COARSE_STRAIGHT);
    assert_eq!(clamp_l_min(i32::MIN), MIN_COARSE_STRAIGHT);
}

#[test]
fn p_is_non_empty_and_connected() {
    let (p, _l_eff, _base_w) = build_p(3, &mut rng(1));
    assert!(!p.is_empty());
    let d = corridor_from_cells(&p, 1);
    assert_eq!(component_count(&d), 1);
}

#[test]
fn p_is_simply_connected_after_hole_fill() {
    for seed in 0..20 {
        let (p, _l_eff, _base_w) = build_p(3, &mut rng(seed));
        let d = corridor_from_cells(&p, 1);
        assert_eq!(bounded_complement_components(&d), 0, "seed {seed}");
    }
}

#[test]
fn growth_never_adds_a_cell_at_y_le_1() {
    for seed in 0..20 {
        let (p, _l_eff, base_w) = build_p(3, &mut rng(seed));
        for pt in &p {
            assert!(pt.1 >= 0, "seed {seed}: {pt:?}");
            if pt.1 <= 1 {
                assert!(pt.0 >= 0 && pt.0 < base_w, "seed {seed}: {pt:?}");
            }
        }
    }
}

#[test]
fn base_south_edge_is_on_the_boundary() {
    for l_min in [2, 3, 8, 20] {
        for seed in 0..10 {
            let (p, _l_eff, base_w) = build_p(l_min, &mut rng(seed));
            let d = corridor_from_cells(&p, 1);
            for x in 0..base_w {
                assert!(
                    d.contains((x, 0)) && !d.contains((x, -1)),
                    "l_min {l_min} seed {seed}: south edge missing at x={x}"
                );
            }
        }
    }
}

#[test]
fn p_border_has_no_length_one_run() {
    for seed in 0..20 {
        let (p, _l_eff, _base_w) = build_p(3, &mut rng(seed));
        let d = corridor_from_cells(&p, 1);
        let runs = max_straight_runs(&d);
        assert!(runs.iter().all(|&r| r >= 2), "seed {seed}: {runs:?}");
    }
}

#[test]
fn ring_is_disjoint_from_hole_and_encloses_it() {
    let (p, _l_eff, _base_w) = build_p(3, &mut rng(1));
    let ring = ring_from_p(&p);
    assert!(ring.is_disjoint(&p));
    assert!(!ring.is_empty());
}

#[test]
fn ring_is_connected_with_exactly_one_hole() {
    for seed in 0..20 {
        let skeleton = phase1_coarse_ring(3, &mut rng(seed));
        let d = corridor_from_cells(&skeleton.ring, 1);
        assert_eq!(component_count(&d), 1, "seed {seed}");
        assert_eq!(bounded_complement_components(&d), 1, "seed {seed}");
        assert!(!skeleton.hole.is_empty());
    }
}

#[test]
fn ring_run_length_check_holds_min_two_on_the_returned_ring() {
    for seed in 0..20 {
        let skeleton = phase1_coarse_ring(3, &mut rng(seed));
        let d = corridor_from_cells(&skeleton.ring, 1);
        let runs = max_straight_runs(&d);
        assert!(runs.iter().all(|&r| r >= 2), "seed {seed}: {runs:?}");
    }
}

#[test]
fn hole_fill_precedes_dilation() {
    let (p, _l_eff, _base_w) = build_p(5, &mut rng(2));
    let d = corridor_from_cells(&p, 1);
    assert_eq!(bounded_complement_components(&d), 0, "P must already be hole-free before ring construction");
}

#[test]
fn widening_preserves_ac2_and_introduces_no_length_one_run() {
    let (p, _l_eff, _base_w) = build_p(3, &mut rng(4));
    let ring_before = ring_from_p(&p);
    let ring_after = widen(&ring_before, &mut rng(4));
    assert!(ring_after.is_superset(&ring_before));
    let d_before = corridor_from_cells(&ring_before, 1);
    let d_after = corridor_from_cells(&ring_after, 1);
    assert_eq!(component_count(&d_before), component_count(&d_after));
    assert_eq!(bounded_complement_components(&d_before), bounded_complement_components(&d_after));
    assert!(ring_after.is_disjoint(&p), "widening must not touch the hole");
}

#[test]
fn dir_is_cw_or_ccw_and_stable_across_same_seed_calls() {
    let a = phase1_coarse_ring(3, &mut rng(7));
    let b = phase1_coarse_ring(3, &mut rng(7));
    assert!(matches!(a.dir, RaceDir::Cw | RaceDir::Ccw));
    assert_eq!(a.dir, b.dir);
}

#[test]
fn rectangular_fallback_satisfies_ac2_and_ac3() {
    for l_eff in [MIN_COARSE_STRAIGHT, 10, MAX_COARSE_STRAIGHT] {
        let (ring, hole) = rectangular_fallback(l_eff);
        let d = corridor_from_cells(&ring, 1);
        assert_eq!(component_count(&d), 1);
        assert_eq!(bounded_complement_components(&d), 1);
        assert!(!hole.is_empty());
        let runs = max_straight_runs(&d);
        assert!(runs.iter().all(|&r| r >= 2));
        assert!(
            runs.iter().copied().max().unwrap_or(0) >= usize::try_from(l_eff).unwrap_or(0),
            "fallback bottom side must be >= l_eff"
        );
    }
}

#[test]
fn rectangular_fallback_exact_cells() {
    let (ring, hole) = rectangular_fallback(2);
    assert_eq!(ring.len(), 12);
    assert_eq!(hole, BTreeSet::from([(1, 1), (2, 1), (1, 2), (2, 2)]));
}

#[test]
fn forced_exhaustion_returns_a_valid_rectangular_fallback() {
    let l_min = 5;
    let (skeleton, used_fallback) = phase1_coarse_ring_attempts(l_min, &mut rng(1), 0);
    assert!(used_fallback, "max_attempts = 0 must force the fallback");
    let d = corridor_from_cells(&skeleton.ring, 1);
    assert_eq!(component_count(&d), 1);
    assert_eq!(bounded_complement_components(&d), 1);
    assert!(!skeleton.hole.is_empty());
    let runs = max_straight_runs(&d);
    assert!(runs.iter().all(|&r| r >= 2));
    let max_run = i32::try_from(runs.iter().copied().max().unwrap_or(0)).unwrap_or(i32::MAX);
    assert!(max_run >= clamp_l_min(l_min));
    let (ring, hole) = rectangular_fallback(5);
    assert_eq!(skeleton.ring, ring);
    assert_eq!(skeleton.hole, hole);
}

/// The seed count the multi-seed property test and the fallback-rate check
/// run over.
const PROPERTY_SEED_COUNT: u64 = 64;

/// The highest fraction of seeds that may fall back to the rectangle.
const FALLBACK_RATE_MAX: f64 = 0.20;

#[test]
fn multi_seed_property_holds_ac2_and_ac3_for_every_seed() {
    let l_min = 3;
    for seed in 0..PROPERTY_SEED_COUNT {
        let (skeleton, _used_fallback) = phase1_coarse_ring_attempts(l_min, &mut rng(seed), MAX_ATTEMPTS);
        let d = corridor_from_cells(&skeleton.ring, 1);
        assert_eq!(component_count(&d), 1, "seed {seed}: ring must be one connected component");
        assert_eq!(bounded_complement_components(&d), 1, "seed {seed}: ring must enclose exactly one hole");
        assert!(!skeleton.hole.is_empty(), "seed {seed}: hole must have >= 1 cell");
        let runs = max_straight_runs(&d);
        assert!(runs.iter().all(|&r| r >= 2), "seed {seed}: ring has a length-1 run: {runs:?}");
        let max_run = i32::try_from(runs.iter().copied().max().unwrap_or(0)).unwrap_or(i32::MAX);
        assert!(max_run >= clamp_l_min(l_min), "seed {seed}: ring has no run >= l_eff: {runs:?}");
    }
}

#[test]
fn fallback_rate_stays_under_the_ceiling() {
    let fallback_count = (0..PROPERTY_SEED_COUNT)
        .filter(|&seed| phase1_coarse_ring_attempts(3, &mut rng(seed), MAX_ATTEMPTS).1)
        .count();
    let rate = fallback_count as f64 / PROPERTY_SEED_COUNT as f64;
    assert!(
        rate <= FALLBACK_RATE_MAX,
        "fallback rate {rate} exceeds ceiling {FALLBACK_RATE_MAX} ({fallback_count}/{PROPERTY_SEED_COUNT} seeds fell back)"
    );
}

#[test]
fn clamp_boundary_extremes_yield_a_bounded_valid_skeleton() {
    for l_min in [i32::MAX, i32::MIN] {
        let skeleton = phase1_coarse_ring(l_min, &mut rng(1));
        let d = corridor_from_cells(&skeleton.ring, 1);
        assert_eq!(component_count(&d), 1);
        assert_eq!(bounded_complement_components(&d), 1);
        assert!(!skeleton.hole.is_empty());
        let runs = max_straight_runs(&d);
        assert!(runs.iter().all(|&r| r >= 2));
        let side = usize::try_from(MAX_COARSE_STRAIGHT).unwrap_or(usize::MAX).saturating_add(2);
        let bound = side.saturating_mul(side).saturating_mul(4);
        assert!(
            skeleton.ring.len() <= bound && skeleton.hole.len() <= bound,
            "l_min {l_min}: unbounded cell count (ring {}, hole {})",
            skeleton.ring.len(),
            skeleton.hole.len()
        );
    }
}

#[test]
fn coarse_skeleton_carries_ring_hole_and_dir() {
    let skeleton = CoarseSkeleton {
        ring: BTreeSet::from([(0, 0)]),
        hole: BTreeSet::from([(1, 1)]),
        dir: RaceDir::Cw,
    };
    assert!(skeleton.ring.contains(&(0, 0)));
    assert!(skeleton.hole.contains(&(1, 1)));
    assert_eq!(skeleton.dir, RaceDir::Cw);
}

fn assert_is_btreeset(_: &BTreeSet<Point>) {}

#[test]
fn returned_containers_are_btreesets() {
    let skeleton = phase1_coarse_ring(3, &mut rng(1));
    assert_is_btreeset(&skeleton.ring);
    assert_is_btreeset(&skeleton.hole);
}

#[test]
fn replay_same_generation_seed_yields_identical_skeleton() {
    let seeds = Seeds { generation: 42, ..Default::default() };
    let a = phase1_coarse_ring(3, &mut seeds.generation_rng());
    let b = phase1_coarse_ring(3, &mut seeds.generation_rng());
    assert_eq!(a.ring, b.ring);
    assert_eq!(a.hole, b.hole);
    assert_eq!(a.dir, b.dir);
}

#[test]
fn snapshot_pins_exact_cells_and_dir_for_a_known_seed() {
    let seeds = Seeds { generation: 999, ..Default::default() };
    let skeleton = phase1_coarse_ring(2, &mut seeds.generation_rng());
    let d = corridor_from_cells(&skeleton.ring, 1);
    assert_eq!(component_count(&d), 1, "minted ring must be connected");
    assert_eq!(bounded_complement_components(&d), 1, "minted ring must enclose exactly one hole");
    let runs = max_straight_runs(&d);
    assert!(runs.iter().all(|&r| r >= 2), "minted ring must have no length-1 run");
    let mut ring: Vec<Point> = skeleton.ring.iter().copied().collect();
    ring.sort_unstable();
    let mut hole: Vec<Point> = skeleton.hole.iter().copied().collect();
    hole.sort_unstable();
    assert_eq!(ring.len(), 96, "pinned ring cell count changed");
    assert_eq!(hole.len(), 64, "pinned hole cell count changed");
    assert_eq!(skeleton.dir, RaceDir::Ccw);
    assert_eq!(ring[0], (-10, 3));
    assert_eq!(ring[ring.len() - 1], (6, 6));
    assert_eq!(hole[0], (-6, 4));
    assert_eq!(hole[hole.len() - 1], (3, 5));
    assert_eq!(ring, snapshot_ring());
    assert_eq!(hole, snapshot_hole());
}

fn snapshot_ring() -> Vec<Point> {
    vec![
        (-10, 3), (-10, 4), (-10, 5), (-10, 6), (-10, 7), (-10, 8), (-9, 3), (-9, 4),
        (-9, 5), (-9, 6), (-9, 7), (-9, 8), (-8, 3), (-8, 4), (-8, 5), (-8, 6),
        (-8, 7), (-8, 8), (-7, 3), (-7, 4), (-7, 5), (-7, 6), (-7, 7), (-7, 8),
        (-6, 3), (-6, 8), (-5, 3), (-5, 8), (-5, 9), (-5, 10), (-5, 11), (-5, 12),
        (-5, 13), (-4, 3), (-4, 4), (-4, 5), (-4, 12), (-4, 13), (-3, 1), (-3, 2),
        (-3, 3), (-3, 4), (-3, 5), (-3, 12), (-3, 13), (-2, 1), (-2, 8), (-2, 9),
        (-2, 12), (-2, 13), (-1, -1), (-1, 0), (-1, 1), (-1, 8), (-1, 9), (-1, 12),
        (-1, 13), (0, -1), (0, 8), (0, 9), (0, 10), (0, 11), (0, 12), (0, 13),
        (1, -1), (1, 8), (2, -1), (2, 6), (2, 7), (2, 8), (3, -1), (3, 6),
        (4, -1), (4, 0), (4, 1), (4, 2), (4, 3), (4, 4), (4, 5), (4, 6),
        (5, -1), (5, 0), (5, 1), (5, 2), (5, 3), (5, 4), (5, 5), (5, 6),
        (6, -1), (6, 0), (6, 1), (6, 2), (6, 3), (6, 4), (6, 5), (6, 6),
    ]
}

fn snapshot_hole() -> Vec<Point> {
    vec![
        (-6, 4), (-6, 5), (-6, 6), (-6, 7), (-5, 4), (-5, 5), (-5, 6), (-5, 7),
        (-4, 6), (-4, 7), (-4, 8), (-4, 9), (-4, 10), (-4, 11), (-3, 6), (-3, 7),
        (-3, 8), (-3, 9), (-3, 10), (-3, 11), (-2, 2), (-2, 3), (-2, 4), (-2, 5),
        (-2, 6), (-2, 7), (-2, 10), (-2, 11), (-1, 2), (-1, 3), (-1, 4), (-1, 5),
        (-1, 6), (-1, 7), (-1, 10), (-1, 11), (0, 0), (0, 1), (0, 2), (0, 3),
        (0, 4), (0, 5), (0, 6), (0, 7), (1, 0), (1, 1), (1, 2), (1, 3),
        (1, 4), (1, 5), (1, 6), (1, 7), (2, 0), (2, 1), (2, 2), (2, 3),
        (2, 4), (2, 5), (3, 0), (3, 1), (3, 2), (3, 3), (3, 4), (3, 5),
    ]
}

#[test]
fn seed_48_lmin3_widen_pinch_stays_one_hole() {
    let (skeleton, _used_fallback) = phase1_coarse_ring_attempts(3, &mut rng(48), MAX_ATTEMPTS);
    let d = corridor_from_cells(&skeleton.ring, 1);
    assert_eq!(component_count(&d), 1);
    assert_eq!(bounded_complement_components(&d), 1);
    assert!(!skeleton.hole.is_empty());
}

#[test]
fn replay_different_generation_seed_differs_in_at_least_one_field() {
    let a = phase1_coarse_ring(3, &mut Seeds { generation: 1, ..Default::default() }.generation_rng());
    let b = phase1_coarse_ring(3, &mut Seeds { generation: 2, ..Default::default() }.generation_rng());
    assert!(a.ring != b.ring || a.hole != b.hole || a.dir != b.dir);
}

#[test]
fn fill_holes_fills_a_ring_placed_far_from_the_origin() {
    let mut ring = BTreeSet::new();
    for x in 19999..=20001 {
        for y in -1..=1 {
            if (x, y) != (20000, 0) {
                ring.insert((x, y));
            }
        }
    }
    let filled = fill_holes(&ring);
    assert_eq!(filled.len(), 9);
    assert!(filled.contains(&(20000, 0)));

    let single: BTreeSet<(i32, i32)> = [(20000, 0)].into_iter().collect();
    assert_eq!(fill_holes(&single), single);
}

#[test]
fn phase1_rings_are_one_loop_of_bounded_size() {
    for seed in 0..8u64 {
        let mut rng = Xoshiro256PlusPlus::seed_from_u64(seed);
        let skel = phase1_coarse_ring(3, &mut rng);
        assert!(skel.ring.len() <= 161 * 161);
        assert!(skel.hole.len() <= 161 * 161);
        let d = corridor_from_cells(&skel.ring, 1);
        assert_eq!(component_count(&d), 1);
        assert_eq!(bounded_complement_components(&d), 1);
    }
}
