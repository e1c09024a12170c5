use gp_track::kinematics::{predecessor, CarState};
use gp_track::reach::{Flood, LapSearch};

fn car(x: i32, y: i32, vx: i32, vy: i32) -> CarState {
    CarState { x, y, vx, vy }
}

/// The nine accelerations, each component in `{-1, 0, 1}`.
fn accels() -> Vec<(i32, i32)> {
    let mut r = Vec::new();
    for ay in -1..=1 {
        for ax in -1..=1 {
            r.push((ax, ay));
        }
    }
    r
}

/// A stand-in move rule on the filled `w × h` box at the origin: a move
/// accelerates, then moves by the new velocity, and is legal when it ends
/// inside the box.
fn toy_successors(s: CarState, w: i32, h: i32) -> Vec<CarState> {
    let mut r = Vec::new();
    for (ax, ay) in accels() {
        let (vx, vy) = (s.vx + ax, s.vy + ay);
        let (x, y) = (s.x + vx, s.y + vy);
        if 0 <= x && x < w && 0 <= y && y < h {
            r.push(car(x, y, vx, vy));
        }
    }
    r
}

/// Runs `f` to completion with `report` answering each expanded state.
fn run(mut f: Flood, report: impl Fn(CarState) -> Vec<CarState>) -> Vec<CarState> {
    while let Some(s) = f.next_state() {
        f.expand(&report(s));
    }
    f.states()
}

#[test]
fn seeds_in_the_box_are_kept_once_in_order() {
    let seeds = vec![car(0, 0, 0, 0), car(5, 5, 2, 0), car(0, 0, 0, 0), car(1, 1, -1, 1)];
    let f = Flood::new(&seeds, 1);
    assert_eq!(f.states(), vec![car(0, 0, 0, 0), car(1, 1, -1, 1)]);
    assert_eq!(f.next_state(), Some(car(0, 0, 0, 0)));
}

#[test]
fn a_seed_outside_the_box_is_never_expanded() {
    let f = Flood::new(&vec![car(2, 2, 3, 0)], 1);
    assert_eq!(f.next_state(), None);
    assert!(f.states().is_empty());
}

#[test]
fn expansion_appends_new_in_box_states_in_report_order() {
    let mut f = Flood::new(&vec![car(0, 0, 0, 0)], 1);
    f.expand(&vec![car(1, 0, 1, 0), car(0, 0, 0, 0), car(2, 0, 2, 0), car(0, 1, 0, 1), car(1, 0, 1, 0)]);
    assert_eq!(f.states(), vec![car(0, 0, 0, 0), car(1, 0, 1, 0), car(0, 1, 0, 1)]);
    assert_eq!(f.next_state(), Some(car(1, 0, 1, 0)));
}

#[test]
fn forward_flood_from_rest_reaches_each_neighbour_and_stays_in_the_box() {
    let found = run(Flood::new(&vec![car(2, 2, 0, 0)], 1), |s| toy_successors(s, 5, 5));
    assert!(found.contains(&car(2, 2, 0, 0)));
    assert!(found.contains(&car(3, 2, 1, 0)));
    assert!(found.contains(&car(1, 2, -1, 0)));
    assert!(found.contains(&car(2, 3, 0, 1)));
    assert!(found.contains(&car(2, 1, 0, -1)));
    assert!(found.iter().all(|s| s.vx.abs() <= 1 && s.vy.abs() <= 1));
    for (i, a) in found.iter().enumerate() {
        assert!(!found[i + 1..].contains(a), "{a:?} found twice");
    }
    // Closed: every in-box successor of a found state was found.
    for &s in &found {
        for t in toy_successors(s, 5, 5) {
            if t.vx.abs() <= 1 && t.vy.abs() <= 1 {
                assert!(found.contains(&t), "successor {t:?} of {s:?} missing");
            }
        }
    }
}

#[test]
fn forward_flood_is_deterministic() {
    let a = run(Flood::new(&vec![car(2, 2, 0, 0)], 1), |s| toy_successors(s, 5, 5));
    let b = run(Flood::new(&vec![car(2, 2, 0, 0)], 1), |s| toy_successors(s, 5, 5));
    assert_eq!(a, b);
}

#[test]
fn backward_flood_admits_a_known_predecessor() {
    let (w, h) = (5, 5);
    let goal = car(3, 2, 1, 0);
    let found = run(Flood::new(&vec![goal], 1), |s2| {
        let mut r = Vec::new();
        for a in accels() {
            if let Some(s) = predecessor(s2, a) {
                if toy_successors(s, w, h).contains(&s2) && 0 <= s.x && s.x < w && 0 <= s.y && s.y < h {
                    r.push(s);
                }
            }
        }
        r
    });
    // Coasting from (2, 2) at velocity (1, 0) lands on the goal.
    assert!(found.contains(&car(2, 2, 1, 0)));
    assert!(found.contains(&goal));
}

/// A stand-in ring track: cells `0..6` on the `x` axis, moving east or
/// west by the new velocity (`|v| ≤ 1` kept by the ceiling), wrapping at
/// the ends; the counter steps up on each eastward crossing from cell `2`
/// into cell `3`, and `gate_open == false` walls that crossing off.
fn ring_moves(s: CarState, counter: i32, gate_open: bool) -> Vec<(CarState, i32, i32)> {
    let mut r = Vec::new();
    for ax in -1..=1 {
        let vx = s.vx + ax;
        let x = (s.x + vx).rem_euclid(6);
        if !gate_open && s.x == 2 && x == 3 {
            continue;
        }
        let c = if s.x == 2 && x == 3 { counter + 1 } else { counter };
        r.push((car(x, 0, vx, 0), c, c));
    }
    r
}

/// Runs the search to its verdict.
fn search(starts: Vec<(CarState, i32, i32)>, gate_open: bool) -> bool {
    let mut ls = LapSearch::new(&starts, 1);
    while let Some((s, counter)) = ls.next_node() {
        ls.expand(&ring_moves(s, counter, gate_open));
    }
    ls.outcome() == Some(true)
}

#[test]
fn a_lap_is_found_round_an_open_ring() {
    assert!(search(vec![(car(0, 0, 0, 0), -1, -1)], true));
}

#[test]
fn no_lap_is_found_when_the_gate_is_walled_off() {
    assert!(!search(vec![(car(0, 0, 0, 0), -1, -1)], false));
}

#[test]
fn the_first_move_that_closes_a_lap_ends_the_search() {
    let mut ls = LapSearch::new(&vec![(car(2, 0, 1, 0), 0, 0)], 1);
    assert_eq!(ls.outcome(), None);
    assert_eq!(ls.next_node(), Some((car(2, 0, 1, 0), 0)));
    ls.expand(&vec![(car(3, 0, 1, 0), 1, 1), (car(4, 0, 2, 0), 0, 0)]);
    assert_eq!(ls.outcome(), Some(true));
    assert_eq!(ls.next_node(), None);
}

#[test]
fn start_nodes_are_keyed_by_the_clamped_counter() {
    let mut ls = LapSearch::new(&vec![(car(0, 0, 0, 0), -1, -1), (car(0, 0, 0, 0), -5, -5), (car(0, 0, 0, 0), 0, 0)], 1);
    assert_eq!(ls.next_node(), Some((car(0, 0, 0, 0), -1)));
    ls.expand(&vec![]);
    assert_eq!(ls.next_node(), Some((car(0, 0, 0, 0), 0)));
    ls.expand(&vec![]);
    assert_eq!(ls.outcome(), Some(false));
}

#[test]
fn a_move_beyond_the_ceiling_never_closes_a_lap() {
    let mut ls = LapSearch::new(&vec![(car(2, 0, 1, 0), 0, 0)], 1);
    ls.expand(&vec![(car(4, 0, 2, 0), 1, 1)]);
    assert_eq!(ls.outcome(), Some(false));
}
