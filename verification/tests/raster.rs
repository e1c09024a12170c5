use gp_track::checks::axis_width;
use gp_track::components::{bounded_complement_components, component_count};
use gp_track::corridor::Corridor;
use gp_track::geom::{Orient, Point, RaceDir};
use gp_track::params::Seeds;
use rand::SeedableRng;
use rand_xoshiro::Xoshiro256PlusPlus;
use gp_track::raster::{block_origin, block_points, line_extent, phase2_rasterize, stage1_baseline, stage2_taper, stage2b_absorb_pockets};
use gp_track::skeleton::{phase1_coarse_ring, CoarseSkeleton};
use std::collections::BTreeSet;


/// A generator seeded with `seed`.
fn rng(seed: u64) -> Xoshiro256PlusPlus {
    Xoshiro256PlusPlus::seed_from_u64(seed)
}

/// The block size the fixture uses (`k ≥ n`).
const FIXTURE_K: i32 = 3;
/// The minimum width the fixture uses.
const FIXTURE_N: i32 = 2;

/// A 3×3-coarse hole in a one-thick ring, widened by one extra coarse cell
/// on the East side for `y ∈ {0, 1}` only.
fn fixture_jog() -> CoarseSkeleton {
    let mut hole = BTreeSet::new();
    for y in 0..3 {
        for x in 0..3 {
            hole.insert((x, y));
        }
    }
    let mut ring = BTreeSet::new();
    for y in -1..=3 {
        for x in -1..=3 {
            if !hole.contains(&(x, y)) {
                ring.insert((x, y));
            }
        }
    }
    ring.insert((4, 0));
    ring.insert((4, 1));
    CoarseSkeleton { ring, hole, dir: RaceDir::Cw }
}

/// Every drivable point of `d`, row-major.
fn drivable_points(d: &Corridor) -> Vec<Point> {
    let (ox, oy) = d.origin();
    let mut pts = Vec::new();
    for dy in 0..d.height() {
        for dx in 0..d.width() {
            let p = (ox.saturating_add(i32::try_from(dx).unwrap_or(0)), oy.saturating_add(i32::try_from(dy).unwrap_or(0)));
            if d.contains(p) {
                pts.push(p);
            }
        }
    }
    pts
}

fn row_extent(d: &Corridor, y: i32, sign: i32) -> Option<i32> {
    line_extent(d, false, y, sign)
}

fn col_extent(d: &Corridor, x: i32, sign: i32) -> Option<i32> {
    line_extent(d, true, x, sign)
}

fn east_wall_profile(d: &Corridor) -> Vec<(i32, i32)> {
    let (_, oy) = d.origin();
    let hgt = i32::try_from(d.height()).unwrap_or(0);
    (oy..oy.saturating_add(hgt)).filter_map(|y| row_extent(d, y, 1).map(|x| (y, x))).collect()
}

fn west_wall_profile(d: &Corridor) -> Vec<(i32, i32)> {
    let (_, oy) = d.origin();
    let hgt = i32::try_from(d.height()).unwrap_or(0);
    (oy..oy.saturating_add(hgt)).filter_map(|y| row_extent(d, y, -1).map(|x| (y, x))).collect()
}

fn north_wall_profile(d: &Corridor) -> Vec<(i32, i32)> {
    let (ox, _) = d.origin();
    let w = i32::try_from(d.width()).unwrap_or(0);
    (ox..ox.saturating_add(w)).filter_map(|x| col_extent(d, x, 1).map(|y| (x, y))).collect()
}

fn south_wall_profile(d: &Corridor) -> Vec<(i32, i32)> {
    let (ox, _) = d.origin();
    let w = i32::try_from(d.width()).unwrap_or(0);
    (ox..ox.saturating_add(w)).filter_map(|x| col_extent(d, x, -1).map(|y| (x, y))).collect()
}

/// No coordinate-adjacent pair of the profile advances its extent by more
/// than one.
fn assert_wall_profile_lipschitz(profile: &[(i32, i32)], label: &str) {
    for w in profile.windows(2) {
        let (c0, v0) = w[0];
        let (c1, v1) = w[1];
        if c1 == c0.saturating_add(1) {
            let step = v1.abs_diff(v0);
            assert!(step <= 1, "{label}: advanced by {step} between coordinate {c0} and {c1} (extent {v0} -> {v1})");
        }
    }
}

/// The maximal contiguous drivable run through `through` along `axis`; `0`
/// when `through` is not drivable.
fn cross_section_width(d: &Corridor, through: Point, axis: Orient) -> usize {
    if !d.contains(through) {
        return 0;
    }
    let mut count = 1usize;
    match axis {
        Orient::Horizontal => {
            let mut x = through.0.saturating_add(1);
            while d.contains((x, through.1)) {
                count = count.saturating_add(1);
                x = x.saturating_add(1);
            }
            let mut x = through.0.saturating_sub(1);
            while d.contains((x, through.1)) {
                count = count.saturating_add(1);
                x = x.saturating_sub(1);
            }
        }
        Orient::Vertical => {
            let mut y = through.1.saturating_add(1);
            while d.contains((through.0, y)) {
                count = count.saturating_add(1);
                y = y.saturating_add(1);
            }
            let mut y = through.1.saturating_sub(1);
            while d.contains((through.0, y)) {
                count = count.saturating_add(1);
                y = y.saturating_sub(1);
            }
        }
    }
    count
}

/// The smaller of the horizontal and vertical runs through `p`.
fn local_width(d: &Corridor, p: Point) -> usize {
    cross_section_width(d, p, Orient::Horizontal).min(cross_section_width(d, p, Orient::Vertical))
}

/// The contiguous drivable run along row `y` through `from_x`.
fn row_run_length(d: &Corridor, y: i32, from_x: i32) -> usize {
    let mut x = from_x;
    let mut count = 0usize;
    while d.contains((x, y)) {
        count = count.saturating_add(1);
        x = x.saturating_add(1);
    }
    let mut x = from_x.saturating_sub(1);
    while d.contains((x, y)) {
        count = count.saturating_add(1);
        x = x.saturating_sub(1);
    }
    count
}

#[test]
fn ac1_every_ring_cell_becomes_a_solid_k_by_k_block() {
    let skel = fixture_jog();
    let (d, _h) = stage1_baseline(&skel.ring, &skel.hole, FIXTURE_K);
    for &c in &skel.ring {
        for p in block_points(c, FIXTURE_K) {
            assert!(d.contains(p), "ring cell {c:?}'s block point {p:?} not drivable");
        }
    }
}

#[test]
fn ac1_drivable_count_matches_ring_cell_count_times_k_squared() {
    let skel = fixture_jog();
    let (d, _h) = stage1_baseline(&skel.ring, &skel.hole, FIXTURE_K);
    let expected = skel.ring.len() * usize::try_from(FIXTURE_K).unwrap_or(0).pow(2);
    assert_eq!(drivable_points(&d).len(), expected);
}

#[test]
fn ac2_baseline_two_coarse_cell_thick_section_is_at_least_2k_wide() {
    let skel = fixture_jog();
    let (d, _h) = stage1_baseline(&skel.ring, &skel.hole, FIXTURE_K);
    let y = FIXTURE_K;
    let run = row_run_length(&d, y, 9);
    assert!(run >= 2 * FIXTURE_K as usize, "run {run} < 2k");
}

#[test]
fn ac6_baseline_two_calls_on_identical_input_are_byte_identical() {
    let skel = fixture_jog();
    let (d1, h1) = stage1_baseline(&skel.ring, &skel.hole, FIXTURE_K);
    let (d2, h2) = stage1_baseline(&skel.ring, &skel.hole, FIXTURE_K);
    assert_eq!(h1, h2);
    assert_eq!(drivable_points(&d1), drivable_points(&d2));
}

#[test]
fn phase2_rasterize_debug_asserts_n_le_k() {
    let skel = fixture_jog();
    let _ = phase2_rasterize(&skel, FIXTURE_K, FIXTURE_N);
}

/// The smallest number of rows a taper run spans.
const MIN_TAPER_RUN: i32 = 3;

/// The unwidened East wall's fine `x` for the fixture.
const FIXTURE_NOMINAL_EAST_X: i32 = 4 * FIXTURE_K - 1;

#[test]
fn ac4_tapered_east_wall_advances_at_most_one_point_per_row() {
    let skel = fixture_jog();
    let d = phase2_rasterize(&skel, FIXTURE_K, FIXTURE_N);
    let profile = east_wall_profile(&d);
    assert!(profile.len() >= 2, "expected a multi-row east wall profile, got {profile:?}");
    for w in profile.windows(2) {
        let (y0, x0) = w[0];
        let (y1, x1) = w[1];
        assert_eq!(y1, y0.saturating_add(1), "profile must be over contiguous rows");
        let step = x1.abs_diff(x0);
        assert!(step <= 1, "east wall advanced by {step} between rows {y0} and {y1} (x {x0} -> {x1})");
    }
}

#[test]
fn ac4_widen_jog_delta_spans_at_least_min_taper_run_rows() {
    let skel = fixture_jog();
    let d = phase2_rasterize(&skel, FIXTURE_K, FIXTURE_N);
    let profile = east_wall_profile(&d);
    let min_x = profile.iter().map(|&(_, x)| x).min().unwrap_or(0);
    let max_x = profile.iter().map(|&(_, x)| x).max().unwrap_or(0);
    let delta = max_x.abs_diff(min_x);
    let fixture_k = u32::try_from(FIXTURE_K).unwrap_or(0);
    let min_taper_run = u32::try_from(MIN_TAPER_RUN).unwrap_or(0);
    assert!(delta >= fixture_k, "expected a >= k jog, got delta {delta}");
    assert!(delta >= min_taper_run, "jog delta {delta} smaller than the MIN_TAPER_RUN floor");
}

#[test]
fn ac4_nominal_rows_far_from_the_jog_keep_width_k() {
    let skel = fixture_jog();
    let d = phase2_rasterize(&skel, FIXTURE_K, FIXTURE_N);
    let south_y = (-1i32).saturating_mul(FIXTURE_K);
    let north_y = 4i32.saturating_mul(FIXTURE_K).saturating_sub(1);
    assert_eq!(row_extent(&d, south_y, 1), Some(FIXTURE_NOMINAL_EAST_X));
    assert_eq!(row_extent(&d, north_y, 1), Some(FIXTURE_NOMINAL_EAST_X));
}

#[test]
fn taper_is_additive_d0_subset_of_final_d() {
    let skel = fixture_jog();
    let (d0, _h) = stage1_baseline(&skel.ring, &skel.hole, FIXTURE_K);
    let d_final = phase2_rasterize(&skel, FIXTURE_K, FIXTURE_N);
    for p in drivable_points(&d0) {
        assert!(d_final.contains(p), "D0 point {p:?} missing from final D");
    }
}

#[test]
fn taper_never_makes_a_hole_cell_drivable() {
    let skel = fixture_jog();
    let (_d0, h) = stage1_baseline(&skel.ring, &skel.hole, FIXTURE_K);
    let d_final = phase2_rasterize(&skel, FIXTURE_K, FIXTURE_N);
    for &p in &h {
        assert!(!d_final.contains(p), "hole cell {p:?} became drivable");
    }
}

#[test]
fn taper_is_deterministic_across_repeated_calls() {
    let skel = fixture_jog();
    let a = phase2_rasterize(&skel, FIXTURE_K, FIXTURE_N);
    let b = phase2_rasterize(&skel, FIXTURE_K, FIXTURE_N);
    assert_eq!(drivable_points(&a), drivable_points(&b));
}

/// The minimum straight length the pocket witness runs at.
const POCKET_WITNESS_L_MIN: i32 = 3;
/// The block size the pocket witness runs at.
const POCKET_WITNESS_K: i32 = 6;
/// The minimum width the pocket witness runs at.
const POCKET_WITNESS_N: i32 = 3;

#[test]
fn seed_0_lmin3_stage2b_absorbs_the_spurious_pocket() {
    let skel = phase1_coarse_ring(POCKET_WITNESS_L_MIN, &mut rng(0));
    let d = phase2_rasterize(&skel, POCKET_WITNESS_K, POCKET_WITNESS_N);
    assert_eq!(bounded_complement_components(&d), 1, "stage 2b must absorb every bounded complement component except H");
}

#[test]
fn stage2b_absorption_is_additive_over_stage2a_output() {
    let skel = phase1_coarse_ring(POCKET_WITNESS_L_MIN, &mut rng(0));
    let (mut envelope_only, h) = stage1_baseline(&skel.ring, &skel.hole, POCKET_WITNESS_K);
    stage2_taper(&mut envelope_only, &h);
    let envelope_points = drivable_points(&envelope_only);
    let mut absorbed = envelope_only.clone();
    stage2b_absorb_pockets(&mut absorbed, &h);
    for p in envelope_points {
        assert!(absorbed.contains(p), "2a point {p:?} missing after 2b absorption");
    }
}

#[test]
fn stage2b_never_absorbs_a_hole_cell() {
    let skel = phase1_coarse_ring(POCKET_WITNESS_L_MIN, &mut rng(0));
    let (mut d, h) = stage1_baseline(&skel.ring, &skel.hole, POCKET_WITNESS_K);
    stage2_taper(&mut d, &h);
    stage2b_absorb_pockets(&mut d, &h);
    for &p in &h {
        assert!(!d.contains(p), "hole cell {p:?} became drivable via 2b");
    }
}

#[test]
fn stage2b_absorption_is_deterministic_across_repeated_calls() {
    let skel = phase1_coarse_ring(POCKET_WITNESS_L_MIN, &mut rng(0));
    let a = phase2_rasterize(&skel, POCKET_WITNESS_K, POCKET_WITNESS_N);
    let b = phase2_rasterize(&skel, POCKET_WITNESS_K, POCKET_WITNESS_N);
    assert_eq!(drivable_points(&a), drivable_points(&b));
}

#[test]
fn stage3_topology_holds_on_fixture() {
    let skel = fixture_jog();
    let d = phase2_rasterize(&skel, FIXTURE_K, FIXTURE_N);
    assert_eq!(component_count(&d), 1, "D must be one connected component");
    assert_eq!(bounded_complement_components(&d), 1, "D must enclose exactly one hole");
}

#[test]
fn ac3_and_carve_vacuity_measured_sections_are_at_least_n_and_min_is_k() {
    let skel = fixture_jog();
    let d = phase2_rasterize(&skel, FIXTURE_K, FIXTURE_N);
    let n = usize::try_from(FIXTURE_N).unwrap_or(0);
    let k = usize::try_from(FIXTURE_K).unwrap_or(0);
    let west = cross_section_width(&d, (-2, 1), Orient::Horizontal);
    let east_wide = cross_section_width(&d, (12, 1), Orient::Horizontal);
    for w in [west, east_wide] {
        assert!(w >= n, "cross-section {w} < n={n}");
    }
    assert_eq!(west.min(east_wide), k, "unwidened arm must measure exactly k");
}

#[test]
fn ac7_cross_sections_match_the_intended_profile() {
    let skel = fixture_jog();
    let d = phase2_rasterize(&skel, FIXTURE_K, FIXTURE_N);
    let k = usize::try_from(FIXTURE_K).unwrap_or(0);
    let west = cross_section_width(&d, (-2, 1), Orient::Horizontal);
    assert_eq!(west, k, "unwidened arm must be exactly k (nominal)");
    let east_wide = cross_section_width(&d, (12, 1), Orient::Horizontal);
    assert!(east_wide >= 2 * k, "widened arm must be >= 2k, got {east_wide}");
}

#[test]
fn ac5_part_a_every_wall_direction_is_one_lipschitz_on_fixture() {
    let skel = fixture_jog();
    let d = phase2_rasterize(&skel, FIXTURE_K, FIXTURE_N);
    assert_wall_profile_lipschitz(&east_wall_profile(&d), "east");
    assert_wall_profile_lipschitz(&west_wall_profile(&d), "west");
    assert_wall_profile_lipschitz(&north_wall_profile(&d), "north");
    assert_wall_profile_lipschitz(&south_wall_profile(&d), "south");
}

/// The seed count the multi-seed sweep runs over.
const PROPERTY_SEED_COUNT: u64 = 64;
/// The block size the sweep rasterizes at.
const PROPERTY_K: i32 = 6;
/// The minimum width the sweep rasterizes at.
const PROPERTY_N: i32 = 3;

#[test]
fn property_sweep_holds_ac1_topology_and_ac5_part_a_across_phase1_seeds() {
    let l_min = 3;
    for seed in 0..PROPERTY_SEED_COUNT {
        let skel = phase1_coarse_ring(l_min, &mut rng(seed));
        let (d0, h) = stage1_baseline(&skel.ring, &skel.hole, PROPERTY_K);
        let d = phase2_rasterize(&skel, PROPERTY_K, PROPERTY_N);
        for p in drivable_points(&d0) {
            assert!(d.contains(p), "seed {seed}: D0 point {p:?} missing from D");
        }
        for &p in &h {
            assert!(!d.contains(p), "seed {seed}: hole cell {p:?} became drivable");
        }
        assert_eq!(component_count(&d), 1, "seed {seed}: D must be one connected component");
        assert_eq!(bounded_complement_components(&d), 1, "seed {seed}: D must enclose exactly one hole");
        assert_wall_profile_lipschitz(&east_wall_profile(&d), "east");
        assert_wall_profile_lipschitz(&west_wall_profile(&d), "west");
        assert_wall_profile_lipschitz(&north_wall_profile(&d), "north");
        assert_wall_profile_lipschitz(&south_wall_profile(&d), "south");
        for p in drivable_points(&d0) {
            let w = local_width(&d, p);
            assert!(w >= usize::try_from(PROPERTY_N).unwrap_or(0), "seed {seed}: local width {w} at straight-run cell {p:?} < n");
        }
    }
}

#[test]
fn ring_block_cells_are_at_least_a_block_wide_both_ways() {
    let skel = fixture_jog();
    let d = phase2_rasterize(&skel, FIXTURE_K, FIXTURE_N);
    let k = u32::try_from(FIXTURE_K).unwrap_or(0);
    let mut narrowest = u32::MAX;
    for &c in &skel.ring {
        for p in block_points(c, FIXTURE_K) {
            let h = axis_width(&d, p, Orient::Horizontal);
            let v = axis_width(&d, p, Orient::Vertical);
            assert!(h >= k && v >= k, "ring block point {p:?}: widths {h}, {v} below {k}");
            narrowest = narrowest.min(h.min(v));
        }
    }
    // The one-thick ring's sides are exactly one block across.
    assert_eq!(narrowest, k);
}

/// A fixed FNV-1a 64-bit hash of the points, in order.
fn fnv1a_hash_points(pts: &[Point]) -> u64 {
    let mut hash: u64 = 0xcbf2_9ce4_8422_2325;
    for p in pts {
        for byte in p.0.to_le_bytes().into_iter().chain(p.1.to_le_bytes()) {
            hash ^= u64::from(byte);
            hash = hash.wrapping_mul(0x0000_0100_0000_01b3);
        }
    }
    hash
}

#[test]
fn ac6_snapshot_pins_an_exact_d_for_a_known_seed() {
    let seeds = Seeds { generation: 12345, ..Default::default() };
    let skel = phase1_coarse_ring(3, &mut seeds.generation_rng());
    let d = phase2_rasterize(&skel, PROPERTY_K, PROPERTY_N);
    assert_eq!(component_count(&d), 1, "minted D must be one component");
    assert_eq!(bounded_complement_components(&d), 1, "minted D must enclose exactly one hole");
    assert_wall_profile_lipschitz(&east_wall_profile(&d), "east");
    assert_wall_profile_lipschitz(&west_wall_profile(&d), "west");
    assert_wall_profile_lipschitz(&north_wall_profile(&d), "north");
    assert_wall_profile_lipschitz(&south_wall_profile(&d), "south");
    assert_eq!(d.origin(), (-61, -19));
    assert_eq!(d.width(), 116);
    assert_eq!(d.height(), 92);
    let points = drivable_points(&d);
    assert_eq!(points.len(), 6087, "pinned point count changed");
    assert_eq!(points[0], (-24, -18), "pinned first point changed");
    assert_eq!(points[points.len() - 1], (11, 71), "pinned last point changed");
    assert_eq!(fnv1a_hash_points(&points), 668_417_556_869_487_235, "pinned exact point-set hash changed");
}

#[test]
fn block_origin_scales_by_k() {
    assert_eq!(block_origin((2, 3), 5), (10, 15));
}

#[test]
fn block_points_matches_expected_kxk_patch() {
    let pts: Vec<Point> = block_points((2, 0), 3);
    let expected: Vec<Point> = (0..3).flat_map(|dy| (0..3).map(move |dx| (6 + dx, dy))).collect();
    assert_eq!(pts, expected);
}

#[test]
fn block_points_is_empty_for_a_non_positive_k() {
    assert!(block_points((2, 0), 0).is_empty());
    assert!(block_points((2, 0), -3).is_empty());
}
