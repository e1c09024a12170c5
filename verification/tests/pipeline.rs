use gp_track::checks::Issue;
use gp_track::pipeline::iteration_result;
use gp_track::pipeline::{advance_attempt, start_attempt, AttemptState};
use gp_track::params::{GenParams, Seeds};
use gp_track::corridor::Corridor;
use gp_track::geom::{Orient, Side};
use gp_track::track::{StartFinish, StartGrid, TimingGate};
use gp_track::pipeline::{
    decide_phase5, repair_iteration_events, should_accept, should_run_oracle, GenLoop, GenObserver,
    GenerationError, IterationResult, LoopAction, OracleVerdict, Phase, Phase5Decision, PhaseEvent,
    PhaseOutcome,
};

#[test]
fn should_run_oracle_declines_on_outstanding_static_issue() {
    assert!(!should_run_oracle(&[Issue::Disconnected], true));
}

#[test]
fn should_run_oracle_declines_on_dead_liveness() {
    assert!(!should_run_oracle(&[], false));
}

#[test]
fn should_run_oracle_runs_when_both_cheap_checks_are_clean() {
    assert!(should_run_oracle(&[], true));
}

#[test]
fn should_accept_declines_on_a_no_braking_issue() {
    assert!(!should_accept(&[Issue::NoBraking { at: (0, 0) }]));
}

#[test]
fn should_accept_allows_a_clean_run_out_check() {
    assert!(should_accept(&[]));
}

#[test]
fn decide_phase5_follows_the_emission_table() {
    let none: [Issue; 0] = [];
    let dirty = [Issue::NoBraking { at: (0, 0) }];
    assert_eq!(decide_phase5(&none, false, OracleVerdict::Lappable, &none), Phase5Decision::Failed);
    assert_eq!(decide_phase5(&dirty, true, OracleVerdict::Lappable, &none), Phase5Decision::Skipped);
    assert_eq!(decide_phase5(&none, true, OracleVerdict::Lappable, &none), Phase5Decision::Accept);
    assert_eq!(decide_phase5(&none, true, OracleVerdict::Lappable, &dirty), Phase5Decision::Repair);
    assert_eq!(decide_phase5(&none, true, OracleVerdict::NotLappable, &none), Phase5Decision::Failed);
}

#[test]
fn accepting_iteration_reports_f6_skipped_and_f7_built() {
    let events = repair_iteration_events(true, Phase5Decision::Accept, false);
    assert_eq!(
        events,
        vec![
            PhaseEvent { phase: Phase::F4, outcome: PhaseOutcome::Clean },
            PhaseEvent { phase: Phase::F5, outcome: PhaseOutcome::Clean },
            PhaseEvent { phase: Phase::F6, outcome: PhaseOutcome::Skipped },
            PhaseEvent { phase: Phase::F7, outcome: PhaseOutcome::Clean },
        ]
    );
}

#[test]
fn repair_iteration_reports_the_repair_outcome() {
    let events = repair_iteration_events(false, Phase5Decision::Skipped, true);
    assert_eq!(
        events,
        vec![
            PhaseEvent { phase: Phase::F4, outcome: PhaseOutcome::Failed },
            PhaseEvent { phase: Phase::F5, outcome: PhaseOutcome::Skipped },
            PhaseEvent { phase: Phase::F6, outcome: PhaseOutcome::Repair },
        ]
    );
    let failed = repair_iteration_events(true, Phase5Decision::Repair, false);
    assert_eq!(failed[1].outcome, PhaseOutcome::Repair);
    assert_eq!(failed[2], PhaseEvent { phase: Phase::F6, outcome: PhaseOutcome::Failed });
}

#[test]
fn unit_observer_is_inert() {
    let mut obs = ();
    assert!(!obs.is_cancelled());
    obs.on_phase(PhaseEvent { phase: Phase::F1, outcome: PhaseOutcome::Clean });
}

#[test]
fn generation_error_messages() {
    assert_eq!(
        GenerationError::SeedBudgetExhausted.message(),
        "track generation failed: seed budget exhausted without an acceptable track"
    );
    assert_eq!(GenerationError::Cancelled.message(), "track generation was cancelled");
}

/// Drives the loops to the end, answering every boundary with `cancel`'s
/// verdict on the check's index and every iteration with `result`; returns
/// the actions taken, the stop included.
fn drive(
    seed_budget: u32,
    repair_budget: u32,
    cancel: impl Fn(usize) -> bool,
    result: impl Fn(usize) -> IterationResult,
) -> Vec<LoopAction> {
    let mut lp = GenLoop::new(seed_budget, repair_budget);
    let mut actions = Vec::new();
    let mut checks: usize = 0;
    let mut iterations: usize = 0;
    while !lp.is_finished() {
        let a = lp.next_action(cancel(checks));
        checks += 1;
        actions.push(a);
        if a == LoopAction::RunIteration {
            lp.record(result(iterations));
            iterations += 1;
        }
    }
    actions
}

#[test]
fn zero_seed_budget_stops_exhausted_at_once() {
    let actions = drive(0, 8, |_| false, |_| IterationResult::Continue);
    assert_eq!(actions, vec![LoopAction::Stop(GenerationError::SeedBudgetExhausted)]);
}

#[test]
fn zero_repair_budget_opens_every_seed_then_exhausts() {
    let actions = drive(8, 0, |_| false, |_| IterationResult::Continue);
    let mut expected = vec![LoopAction::StartSeed; 8];
    expected.push(LoopAction::Stop(GenerationError::SeedBudgetExhausted));
    assert_eq!(actions, expected);
}

#[test]
fn a_cancel_at_the_first_check_stops_before_any_seed() {
    let actions = drive(64, 32, |_| true, |_| IterationResult::Continue);
    assert_eq!(actions, vec![LoopAction::Stop(GenerationError::Cancelled)]);
}

#[test]
fn a_cancel_at_the_second_check_trips_the_repair_boundary() {
    let actions = drive(64, 32, |i| i >= 1, |_| IterationResult::Continue);
    assert_eq!(actions, vec![LoopAction::StartSeed, LoopAction::Stop(GenerationError::Cancelled)]);
}

#[test]
fn an_accepted_iteration_finishes_the_loops() {
    let actions = drive(4, 4, |_| false, |i| if i == 2 { IterationResult::Accepted } else { IterationResult::Continue });
    assert_eq!(actions, vec![LoopAction::StartSeed, LoopAction::RunIteration, LoopAction::RunIteration, LoopAction::RunIteration]);
}

#[test]
fn giving_up_moves_on_to_the_next_seed() {
    let actions = drive(2, 5, |_| false, |_| IterationResult::GiveUp);
    assert_eq!(
        actions,
        vec![
            LoopAction::StartSeed,
            LoopAction::RunIteration,
            LoopAction::StartSeed,
            LoopAction::RunIteration,
            LoopAction::Stop(GenerationError::SeedBudgetExhausted),
        ]
    );
}

#[test]
fn a_run_that_never_accepts_takes_every_budgeted_step() {
    let actions = drive(3, 4, |_| false, |_| IterationResult::Continue);
    let opened = actions.iter().filter(|a| **a == LoopAction::StartSeed).count();
    let iterations = actions.iter().filter(|a| **a == LoopAction::RunIteration).count();
    assert_eq!(opened, 3);
    assert_eq!(iterations, 12);
    assert_eq!(actions.len(), 3 * (4 + 1) + 1);
    assert_eq!(actions.last(), Some(&LoopAction::Stop(GenerationError::SeedBudgetExhausted)));
}

#[test]
fn the_observer_is_not_asked_once_the_budget_is_spent() {
    let mut lp = GenLoop::new(1, 1);
    assert!(lp.at_boundary());
    assert_eq!(lp.next_action(false), LoopAction::StartSeed);
    assert!(lp.at_boundary());
    assert_eq!(lp.next_action(false), LoopAction::RunIteration);
    lp.record(IterationResult::Continue);
    assert!(!lp.at_boundary());
    // Not at a boundary, a stop request is not read.
    assert_eq!(lp.next_action(true), LoopAction::Stop(GenerationError::SeedBudgetExhausted));
    assert!(lp.is_finished());
}

#[test]
fn an_iteration_ends_by_its_decision_and_repair() {
    assert_eq!(iteration_result(Phase5Decision::Accept, false), IterationResult::Accepted);
    assert_eq!(iteration_result(Phase5Decision::Repair, true), IterationResult::Continue);
    assert_eq!(iteration_result(Phase5Decision::Failed, true), IterationResult::Continue);
    assert_eq!(iteration_result(Phase5Decision::Skipped, false), IterationResult::GiveUp);
}

#[test]
fn a_repaired_attempt_keeps_its_start_finish_and_grid() {
    let state = AttemptState {
        d: Corridor::new((0, 0), 3, 3),
        sf: StartFinish {
            chord: vec![(1, 1), (2, 1)],
            orient: Orient::Horizontal,
            gate: TimingGate { behind: vec![(1, 0), (2, 0)], forward: Side::North },
        },
        grid: StartGrid { positions: vec![(1, 2)] },
    };
    let repaired = Corridor::filled((0, 0), 3, 3);
    let (result, next) = advance_attempt(state, Phase5Decision::Repair, Some(repaired));
    assert_eq!(result, IterationResult::Continue);
    let next = next.unwrap();
    assert!(next.d.contains((0, 0)));
    assert_eq!(next.sf.chord, vec![(1, 1), (2, 1)]);
    assert_eq!(next.sf.gate.behind, vec![(1, 0), (2, 0)]);
    assert_eq!(next.grid.positions, vec![(1, 2)]);

    let (result, next) = advance_attempt(next, Phase5Decision::Failed, None);
    assert_eq!(result, IterationResult::GiveUp);
    assert!(next.is_none());

    let kept = AttemptState {
        d: Corridor::new((0, 0), 2, 2),
        sf: StartFinish { chord: vec![(0, 0)], orient: Orient::Vertical, gate: TimingGate { behind: vec![], forward: Side::East } },
        grid: StartGrid { positions: vec![] },
    };
    let (result, next) = advance_attempt(kept, Phase5Decision::Accept, Some(Corridor::filled((0, 0), 2, 2)));
    assert_eq!(result, IterationResult::Accepted);
    let next = next.unwrap();
    assert!(!next.d.contains((0, 0)));
    assert_eq!(next.sf.chord, vec![(0, 0)]);
}

#[test]
fn a_seed_attempt_opens_with_three_clean_phases() {
    let params = GenParams {
        cars: 4,
        min_straight: 3,
        v_ceiling: 5,
        block_size: 6,
        seeds: Seeds { generation: 7, ..Default::default() },
    };
    let mut rng = params.generation_rng();
    let (skel, state, events) = start_attempt(&params, &mut rng);
    assert_eq!(
        events,
        vec![
            PhaseEvent { phase: Phase::F1, outcome: PhaseOutcome::Clean },
            PhaseEvent { phase: Phase::F2, outcome: PhaseOutcome::Clean },
            PhaseEvent { phase: Phase::F3, outcome: PhaseOutcome::Clean },
        ]
    );
    assert!(!skel.hole.is_empty());
    assert_eq!(state.sf.chord.len(), 4);
    assert_eq!(state.grid.positions.len(), 4);
    for cell in state.sf.chord.iter().chain(state.grid.positions.iter()) {
        assert!(state.d.contains(*cell));
    }
    let mut again = params.generation_rng();
    let (skel2, state2, _) = start_attempt(&params, &mut again);
    assert_eq!(skel.ring, skel2.ring);
    assert_eq!(skel.hole, skel2.hole);
    assert_eq!(state.sf.chord, state2.sf.chord);
}
