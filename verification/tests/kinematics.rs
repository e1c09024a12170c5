use gp_track::kinematics::{
    braking_cells, end_of_ray, heatmap_at, predecessor, runout_room, sink_indices, travel_dir,
    triangular, within_v_ceil, CarState, MAX_BRAKE_SPEED,
};
use gp_track::corridor::Corridor;

fn car(x: i32, y: i32, vx: i32, vy: i32) -> CarState {
    CarState { x, y, vx, vy }
}

#[test]
fn triangular_matches_hand_values_at_small_v() {
    assert_eq!(triangular(0), 0);
    assert_eq!(triangular(1), 1);
    assert_eq!(triangular(2), 3);
    assert_eq!(triangular(3), 6);
}

#[test]
fn triangular_is_clamped_and_total_at_i32_max() {
    assert_eq!(triangular(i32::MAX), triangular(MAX_BRAKE_SPEED));
    assert_eq!(triangular(i32::MIN), 0);
}

#[test]
fn braking_cells_is_zero_when_to_is_at_least_from() {
    assert_eq!(braking_cells(2, 2), 0);
    assert_eq!(braking_cells(2, 5), 0);
}

#[test]
fn braking_cells_matches_the_triangular_difference() {
    assert_eq!(braking_cells(3, 1), triangular(3) - triangular(1));
}

#[test]
fn triangular_at_the_brake_ceiling_is_exact() {
    assert_eq!(triangular(MAX_BRAKE_SPEED), 1_073_720_970);
}

#[test]
fn predecessor_inverts_step_for_a_legal_transition() {
    assert_eq!(predecessor(car(3, 2, 1, 0), (0, 0)), Some(car(2, 2, 1, 0)));
}

#[test]
fn predecessor_is_total_on_overflowing_input() {
    assert_eq!(predecessor(car(i32::MIN, 0, 1, 0), (0, 0)), None);
}

#[test]
fn within_v_ceil_bounds_the_l_infinity_box() {
    assert!(within_v_ceil(car(0, 0, 1, -1), 1));
    assert!(!within_v_ceil(car(0, 0, 2, 0), 1));
    assert!(!within_v_ceil(car(0, 0, 0, -2), 1));
    assert!(!within_v_ceil(car(0, 0, 0, 0), i32::MIN));
}

#[test]
fn heatmap_at_finds_recorded_points_only() {
    let heat = vec![((0, 0), 5), ((1, 0), 1), ((2, 0), 7)];
    assert_eq!(heatmap_at(&heat, (1, 0)), Some(1));
    assert_eq!(heatmap_at(&heat, (2, 0)), Some(7));
    assert_eq!(heatmap_at(&heat, (3, 0)), None);
}

#[test]
fn sink_indices_always_contains_zero_when_path_non_empty() {
    let lap = vec![(0, 0), (1, 0)];
    let heat = vec![((0, 0), 5), ((1, 0), 5)];
    assert!(sink_indices(&lap, &heat).contains(&0));
}

#[test]
fn sink_indices_is_empty_on_an_empty_path() {
    assert!(sink_indices(&vec![], &vec![]).is_empty());
}

#[test]
fn sink_indices_includes_low_heatmap_points() {
    let lap = vec![(0, 0), (1, 0), (2, 0)];
    let heat = vec![((0, 0), 5), ((1, 0), 1), ((2, 0), 5)];
    let sinks = sink_indices(&lap, &heat);
    assert!(sinks.contains(&0));
    assert!(sinks.contains(&1));
    assert!(!sinks.contains(&2));
}

#[test]
fn travel_dir_takes_the_dominant_axis() {
    let path = vec![(0, 0), (3, 1), (3, 5)];
    assert_eq!(travel_dir(&path, 0), (1, 0));
    assert_eq!(travel_dir(&path, 1), (0, 1));
    assert_eq!(travel_dir(&path, 2), (0, 1));
    assert_eq!(travel_dir(&path, 3), (0, 0));
    assert_eq!(travel_dir(&vec![(4, 4)], 0), (0, 0));
}

#[test]
fn travel_dir_on_a_diagonal_step_picks_the_dominant_axis_ties_to_x() {
    let path = vec![(0, 0), (2, 2)];
    assert_eq!(travel_dir(&path, 0), (1, 0));
    let path = vec![(0, 0), (1, 3)];
    assert_eq!(travel_dir(&path, 0), (0, 1));
}

#[test]
fn travel_dir_at_the_last_index_uses_the_backward_step() {
    let path = vec![(0, 0), (3, 0)];
    assert_eq!(travel_dir(&path, 1), (1, 0));
}

#[test]
fn travel_dir_is_total_on_out_of_range_and_singleton_paths() {
    assert_eq!(travel_dir(&vec![], 0), (0, 0));
    assert_eq!(travel_dir(&vec![(0, 0)], 0), (0, 0));
    assert_eq!(travel_dir(&vec![(0, 0)], 5), (0, 0));
}

#[test]
fn end_of_ray_walks_to_the_last_drivable_cell() {
    let d = Corridor::filled((0, 0), 5, 1);
    assert_eq!(end_of_ray(&d, (0, 0), (1, 0)), (4, 0));
    let d = Corridor::filled((0, 0), 5, 5);
    assert_eq!(end_of_ray(&d, (1, 2), (1, 0)), (4, 2));
}

#[test]
fn end_of_ray_is_total_on_zero_direction_and_off_d_start() {
    let d = Corridor::filled((0, 0), 5, 1);
    assert_eq!(end_of_ray(&d, (2, 0), (0, 0)), (2, 0));
    assert_eq!(end_of_ray(&d, (9, 9), (1, 0)), (9, 9));
}

#[test]
fn runout_room_is_wall_run_minus_one() {
    let d = Corridor::filled((0, 0), 5, 1);
    assert_eq!(runout_room(&d, (0, 0), (1, 0)), 4);
}

#[test]
fn runout_room_counts_cells_past_the_start() {
    let d = Corridor::filled((0, 0), 5, 5);
    assert_eq!(runout_room(&d, (1, 2), (1, 0)), 3);
    assert_eq!(runout_room(&d, (9, 9), (1, 0)), -1);
}
