//! The generation pipeline's decisions: which phases run on a repair
//! iteration, what each reports to an observer, when a track is accepted,
//! and how the seed loop and the repair loop advance and stop.

use vstd::prelude::*;
use crate::checks::Issue;
use crate::corridor::Corridor;
use crate::track::{phase3_start_finish, seated, StartFinish, StartGrid};
use crate::params::GenParams;
use crate::geom::Point;
use crate::raster::{block_size_ok, coarse_ok, lemma_rasterized_box, phase2_rasterize, rasterized};
use crate::skeleton::{attempts_draws, phase1_coarse_ring, skeleton_built, CoarseSkeleton, MAX_ATTEMPTS};
use rand_xoshiro::Xoshiro256PlusPlus;

verus! {

/// The generator's failure value.
#[derive(Clone, Copy, Debug, PartialEq, Eq, Structural)]
pub enum GenerationError {
    /// The seed budget was spent without ever reaching the accept path.
    SeedBudgetExhausted,
    /// The observer asked to stop at a loop boundary; no artifact was
    /// produced.
    Cancelled,
}

impl GenerationError {
    /// The human-readable message of the error.
    pub fn message(&self) -> (r: &'static str)
        ensures
            *self == GenerationError::SeedBudgetExhausted ==> r@ == "track generation failed: seed budget exhausted without an acceptable track"@,
            *self == GenerationError::Cancelled ==> r@ == "track generation was cancelled"@,
    {
        match self {
            GenerationError::SeedBudgetExhausted => "track generation failed: seed budget exhausted without an acceptable track",
            GenerationError::Cancelled => "track generation was cancelled",
        }
    }
}

/// One of the seven fixed generation phases.
#[derive(Clone, Copy, Debug, PartialEq, Eq, Structural)]
pub enum Phase {
    /// Ф1 — the coarse skeleton.
    F1,
    /// Ф2 — rasterization.
    F2,
    /// Ф3 — start/finish and grid.
    F3,
    /// Ф4 — static checks.
    F4,
    /// Ф5 — liveness, full oracle and run-out checks.
    F5,
    /// Ф6 — local repair.
    F6,
    /// Ф7 — artifact assembly.
    F7,
}

/// A single phase's outcome for one seed attempt or repair iteration.
#[derive(Clone, Copy, Debug, PartialEq, Eq, Structural)]
pub enum PhaseOutcome {
    /// The phase did not run this time.
    Skipped,
    /// The phase completed cleanly.
    Clean,
    /// The phase needed local repair.
    Repair,
    /// The phase produced a blocking issue.
    Failed,
}

/// One phase-observation event.
#[derive(Clone, Copy, Debug, PartialEq, Eq, Structural)]
pub struct PhaseEvent {
    /// The phase this event reports on.
    pub phase: Phase,
    /// That phase's outcome this attempt or iteration.
    pub outcome: PhaseOutcome,
}

/// Cancellation and phase-observation hook of the generator. Both methods
/// default to inert: never cancelled, events dropped.
pub trait GenObserver {
    /// Whether the caller wants generation to stop cooperatively; checked at
    /// the top of each seed iteration and each repair iteration.
    fn is_cancelled(&self) -> (r: bool)
        default_ensures
            !r,
    {
        false
    }

    /// Reports one phase's outcome for the current attempt or iteration.
    fn on_phase(&mut self, event: PhaseEvent) {
    }
}

impl GenObserver for () {
}

/// The expensive oracle is worth running only once both cheap checks are
/// clean: no outstanding static issue, and the slow-speed liveness probe
/// already finds a lap.
pub fn should_run_oracle(static_issues: &[Issue], liveness: bool) -> (r: bool)
    ensures
        r == (static_issues@.len() == 0 && liveness),
{
    static_issues.len() == 0 && liveness
}

/// A lappable verdict is accepted only with a clean run-out check.
pub fn should_accept(runout_issues: &[Issue]) -> (r: bool)
    ensures
        r == (runout_issues@.len() == 0),
{
    runout_issues.len() == 0
}

/// The full oracle's verdict on the corridor.
#[derive(Clone, Copy, Debug, PartialEq, Eq, Structural)]
pub enum OracleVerdict {
    /// A driveable closed lap exists.
    Lappable,
    /// No lap exists; the oracle reported where it stalled.
    NotLappable,
}

/// Ф5's classification of one repair iteration.
#[derive(Clone, Copy, Debug, PartialEq, Eq, Structural)]
pub enum Phase5Decision {
    /// No slow lap, or a not-lappable verdict.
    Failed,
    /// The oracle was gated off this iteration.
    Skipped,
    /// A lappable verdict with a clean run-out check: the accept path.
    Accept,
    /// A lappable verdict with run-out issues: routed to repair.
    Repair,
}

/// The spec of [`decide_phase5`].
pub open spec fn phase5_decision(static_clean: bool, liveness: bool, verdict: OracleVerdict, runout_clean: bool) -> Phase5Decision {
    if !liveness {
        Phase5Decision::Failed
    } else if !static_clean {
        Phase5Decision::Skipped
    } else {
        match verdict {
            OracleVerdict::Lappable => if runout_clean { Phase5Decision::Accept } else { Phase5Decision::Repair },
            OracleVerdict::NotLappable => Phase5Decision::Failed,
        }
    }
}

/// Classifies Ф5 from the static issues, the liveness probe, the full
/// oracle's verdict and the run-out issues. The verdict and the run-out
/// issues only matter once [`should_run_oracle`] lets the oracle run.
pub fn decide_phase5(static_issues: &[Issue], liveness: bool, verdict: OracleVerdict, runout_issues: &[Issue]) -> (r: Phase5Decision)
    ensures
        r == phase5_decision(static_issues@.len() == 0, liveness, verdict, runout_issues@.len() == 0),
{
    if !liveness {
        return Phase5Decision::Failed;
    }
    if !should_run_oracle(static_issues, liveness) {
        return Phase5Decision::Skipped;
    }
    match verdict {
        OracleVerdict::Lappable => {
            if should_accept(runout_issues) {
                Phase5Decision::Accept
            } else {
                Phase5Decision::Repair
            }
        },
        OracleVerdict::NotLappable => Phase5Decision::Failed,
    }
}

/// The events one repair iteration reports: Ф4 (clean or failed), Ф5 by
/// its decision, then on accept Ф6 skipped and Ф7 built; otherwise Ф6
/// repaired or failed.
pub open spec fn iteration_events(static_clean: bool, decision: Phase5Decision, repaired: bool) -> Seq<PhaseEvent> {
    let f4 = PhaseEvent { phase: Phase::F4, outcome: if static_clean { PhaseOutcome::Clean } else { PhaseOutcome::Failed } };
    let f5 = PhaseEvent {
        phase: Phase::F5,
        outcome: match decision {
            Phase5Decision::Failed => PhaseOutcome::Failed,
            Phase5Decision::Skipped => PhaseOutcome::Skipped,
            Phase5Decision::Accept => PhaseOutcome::Clean,
            Phase5Decision::Repair => PhaseOutcome::Repair,
        },
    };
    if decision == Phase5Decision::Accept {
        seq![f4, f5, PhaseEvent { phase: Phase::F6, outcome: PhaseOutcome::Skipped }, PhaseEvent { phase: Phase::F7, outcome: PhaseOutcome::Clean }]
    } else {
        seq![f4, f5, PhaseEvent { phase: Phase::F6, outcome: if repaired { PhaseOutcome::Repair } else { PhaseOutcome::Failed } }]
    }
}

/// The phase events of one repair iteration, in the order they are
/// reported. `repaired` (whether Ф6 committed an edit) is read only when
/// the iteration does not accept.
pub fn repair_iteration_events(static_clean: bool, decision: Phase5Decision, repaired: bool) -> (r: Vec<PhaseEvent>)
    ensures
        r@ == iteration_events(static_clean, decision, repaired),
{
    let mut r: Vec<PhaseEvent> = Vec::new();
    r.push(PhaseEvent { phase: Phase::F4, outcome: if static_clean { PhaseOutcome::Clean } else { PhaseOutcome::Failed } });
    let f5 = match decision {
        Phase5Decision::Failed => PhaseOutcome::Failed,
        Phase5Decision::Skipped => PhaseOutcome::Skipped,
        Phase5Decision::Accept => PhaseOutcome::Clean,
        Phase5Decision::Repair => PhaseOutcome::Repair,
    };
    r.push(PhaseEvent { phase: Phase::F5, outcome: f5 });
    match decision {
        Phase5Decision::Accept => {
            r.push(PhaseEvent { phase: Phase::F6, outcome: PhaseOutcome::Skipped });
            r.push(PhaseEvent { phase: Phase::F7, outcome: PhaseOutcome::Clean });
        },
        _ => {
            r.push(PhaseEvent { phase: Phase::F6, outcome: if repaired { PhaseOutcome::Repair } else { PhaseOutcome::Failed } });
        },
    }
    proof {
        assert(r@ =~= iteration_events(static_clean, decision, repaired));
    }
    r
}

/// What the generator does next.
#[derive(Clone, Copy, Debug, PartialEq, Eq, Structural)]
pub enum LoopAction {
    /// Open a new seed attempt: draw a fresh skeleton and run Ф1–Ф3.
    StartSeed,
    /// Run one repair iteration (Ф4 onward) on the open attempt.
    RunIteration,
    /// Stop with this error. On [`GenerationError::SeedBudgetExhausted`]
    /// Ф7 is reported skipped first.
    Stop(GenerationError),
}

/// How one repair iteration ended.
#[derive(Clone, Copy, Debug, PartialEq, Eq, Structural)]
pub enum IterationResult {
    /// Ф5 accepted and Ф7 built the artifact: generation succeeds.
    Accepted,
    /// Ф6 repaired the corridor: the attempt goes on.
    Continue,
    /// Ф6 made no progress: the attempt is dropped for the next seed.
    GiveUp,
}

/// The state of the generator's two loops, as plain numbers.
pub struct LoopView {
    pub seed_budget: nat,
    pub repair_budget: nat,
    /// Seed attempts opened so far.
    pub seeds_started: nat,
    /// Repair iterations run in the open attempt, while one is open.
    pub attempt: Option<nat>,
    /// Whether generation has succeeded or stopped.
    pub finished: bool,
}

impl LoopView {
    /// The loops' bookkeeping is consistent.
    pub open spec fn wf(self) -> bool {
        &&& self.seeds_started <= self.seed_budget
        &&& self.attempt matches Some(r) ==> r <= self.repair_budget && self.seeds_started >= 1
    }

    /// An upper bound on the actions left before generation stops: the
    /// unopened seeds' full repair budgets (each plus its opening), and
    /// what remains of the open attempt's.
    pub open spec fn steps_left(self) -> int {
        (self.seed_budget - self.seeds_started) * (self.repair_budget + 1) + match self.attempt {
            Some(r) => self.repair_budget - r,
            None => 0,
        }
    }

    /// The next action and state, reading `cancelled` only at the two loop
    /// boundaries: before a repair iteration while the open attempt has
    /// budget left, else before opening the next seed while seeds remain.
    pub open spec fn step(self, cancelled: bool) -> (LoopView, LoopAction) {
        let open = match self.attempt {
            Some(r) => r < self.repair_budget,
            None => false,
        };
        if open {
            if cancelled {
                (LoopView { finished: true, ..self }, LoopAction::Stop(GenerationError::Cancelled))
            } else {
                (LoopView { attempt: Some(self.attempt->0 + 1), ..self }, LoopAction::RunIteration)
            }
        } else if self.seeds_started < self.seed_budget {
            if cancelled {
                (LoopView { attempt: None, finished: true, ..self }, LoopAction::Stop(GenerationError::Cancelled))
            } else {
                (LoopView { seeds_started: self.seeds_started + 1, attempt: Some(0), ..self }, LoopAction::StartSeed)
            }
        } else {
            (LoopView { attempt: None, finished: true, ..self }, LoopAction::Stop(GenerationError::SeedBudgetExhausted))
        }
    }

    /// The state after a repair iteration ended with `result`.
    pub open spec fn after(self, result: IterationResult) -> LoopView {
        match result {
            IterationResult::Accepted => LoopView { finished: true, ..self },
            IterationResult::Continue => self,
            IterationResult::GiveUp => LoopView { attempt: None, ..self },
        }
    }
}

/// The generator's seed loop and, inside each seed attempt, its repair
/// loop: at most `seed_budget` attempts, each with at most `repair_budget`
/// repair iterations, with a cancellation check at the top of each.
pub struct GenLoop {
    seed_budget: u32,
    repair_budget: u32,
    seeds_started: u32,
    attempt: Option<u32>,
    finished: bool,
}

impl View for GenLoop {
    type V = LoopView;

    closed spec fn view(&self) -> LoopView {
        LoopView {
            seed_budget: self.seed_budget as nat,
            repair_budget: self.repair_budget as nat,
            seeds_started: self.seeds_started as nat,
            attempt: match self.attempt {
                Some(r) => Some(r as nat),
                None => None,
            },
            finished: self.finished,
        }
    }
}

impl GenLoop {
    /// The loops before the first seed, with their budgets.
    pub fn new(seed_budget: u32, repair_budget: u32) -> (r: GenLoop)
        ensures
            r@ == (LoopView { seed_budget: seed_budget as nat, repair_budget: repair_budget as nat, seeds_started: 0, attempt: None, finished: false }),
            r@.wf(),
            r@.steps_left() == seed_budget * (repair_budget + 1),
    {
        GenLoop { seed_budget, repair_budget, seeds_started: 0, attempt: None, finished: false }
    }

    /// Whether the next action is taken at a loop boundary, where the
    /// observer is asked whether to stop: an iteration is due, or a seed
    /// remains to open. Otherwise the next action stops with the seed
    /// budget spent, asking nothing.
    pub fn at_boundary(&self) -> (r: bool)
        ensures
            r == (match self@.attempt {
                Some(it) => it < self@.repair_budget,
                None => false,
            } || self@.seeds_started < self@.seed_budget),
    {
        let iteration_due = match self.attempt {
            Some(it) => it < self.repair_budget,
            None => false,
        };
        iteration_due || self.seeds_started < self.seed_budget
    }

    /// Whether generation has succeeded or stopped.
    pub fn is_finished(&self) -> (r: bool)
        ensures
            r == self@.finished,
    {
        self.finished
    }

    /// Advances to the next action; `cancelled` is the observer's answer,
    /// read only at a loop boundary. An action that does not stop uses up
    /// one of the steps left.
    pub fn next_action(&mut self, cancelled: bool) -> (r: LoopAction)
        requires
            old(self)@.wf(),
            !old(self)@.finished,
        ensures
            (final(self)@, r) == old(self)@.step(cancelled),
            final(self)@.wf(),
            r is Stop <==> final(self)@.finished,
            !(r is Stop) ==> final(self)@.steps_left() + 1 == old(self)@.steps_left(),
            final(self)@.steps_left() >= 0,
    {
        proof {
            assert((self.seed_budget - self.seeds_started) * (self.repair_budget + 1) == (self.seed_budget
                - (self.seeds_started + 1)) * (self.repair_budget + 1) + self.repair_budget + 1) by (nonlinear_arith);
            assert((self.seed_budget - self.seeds_started) * (self.repair_budget + 1) >= 0) by (nonlinear_arith)
                requires self.seeds_started <= self.seed_budget;
        }
        if let Some(r) = self.attempt {
            if r < self.repair_budget {
                if cancelled {
                    self.finished = true;
                    return LoopAction::Stop(GenerationError::Cancelled);
                }
                self.attempt = Some(r + 1);
                return LoopAction::RunIteration;
            }
        }
        if self.seeds_started < self.seed_budget {
            if cancelled {
                self.attempt = None;
                self.finished = true;
                LoopAction::Stop(GenerationError::Cancelled)
            } else {
                self.seeds_started = self.seeds_started + 1;
                self.attempt = Some(0);
                LoopAction::StartSeed
            }
        } else {
            self.attempt = None;
            self.finished = true;
            LoopAction::Stop(GenerationError::SeedBudgetExhausted)
        }
    }

    /// Records how the repair iteration just run ended. It never adds to
    /// the steps left.
    pub fn record(&mut self, result: IterationResult)
        requires
            old(self)@.wf(),
            !old(self)@.finished,
            old(self)@.attempt is Some,
        ensures
            final(self)@ == old(self)@.after(result),
            final(self)@.wf(),
            final(self)@.finished <==> result == IterationResult::Accepted,
            final(self)@.steps_left() <= old(self)@.steps_left(),
    {
        match result {
            IterationResult::Accepted => {
                self.finished = true;
            },
            IterationResult::Continue => {},
            IterationResult::GiveUp => {
                self.attempt = None;
            },
        }
    }
}

/// How a repair iteration ends, from its Ф5 decision and whether Ф6
/// committed an edit: accepted on the accept path; otherwise it goes on
/// when Ф6 repaired the corridor, and gives the seed up when it did not.
pub open spec fn iteration_result_of(decision: Phase5Decision, repaired: bool) -> IterationResult {
    if decision == Phase5Decision::Accept {
        IterationResult::Accepted
    } else if repaired {
        IterationResult::Continue
    } else {
        IterationResult::GiveUp
    }
}

/// How a repair iteration ends (see [`iteration_result_of`]); `repaired`
/// is read only off the accept path, where Ф6 runs.
pub fn iteration_result(decision: Phase5Decision, repaired: bool) -> (r: IterationResult)
    ensures
        r == iteration_result_of(decision, repaired),
{
    match decision {
        Phase5Decision::Accept => IterationResult::Accepted,
        _ => if repaired {
            IterationResult::Continue
        } else {
            IterationResult::GiveUp
        },
    }
}

/// The open seed attempt between repair iterations: the corridor, and the
/// start/finish line and start grid that Ф3 seated on it.
pub struct AttemptState {
    /// The corridor as repaired so far.
    pub d: Corridor,
    /// The start/finish line.
    pub sf: StartFinish,
    /// The start grid.
    pub grid: StartGrid,
}

/// The events a seed attempt reports on opening: Ф1, Ф2 and Ф3, each
/// clean.
pub open spec fn opening_events() -> Seq<PhaseEvent> {
    seq![
        PhaseEvent { phase: Phase::F1, outcome: PhaseOutcome::Clean },
        PhaseEvent { phase: Phase::F2, outcome: PhaseOutcome::Clean },
        PhaseEvent { phase: Phase::F3, outcome: PhaseOutcome::Clean },
    ]
}

/// Opens a seed attempt: Ф1 draws the skeleton from `rng` for the minimum
/// straight, Ф2 rasterizes it at the block size with the width floor, and
/// Ф3 seats the start/finish line and grid for the cars; each phase then
/// reports success. Returns the skeleton, the attempt's state and the
/// three events, in order.
pub fn start_attempt(params: &GenParams, rng: &mut Xoshiro256PlusPlus) -> (r: (
    CoarseSkeleton,
    AttemptState,
    Vec<PhaseEvent>,
))
    requires
        block_size_ok(params.block_size as int),
        (params.cars + 1) / 2 <= params.block_size,
        params.cars <= 0x4000_0000,
    ensures
        (r.0.ring@, r.0.hole@, r.0.dir) == attempts_draws(params.min_straight as int, *old(rng), MAX_ATTEMPTS as nat).0,
        *final(rng) == attempts_draws(params.min_straight as int, *old(rng), MAX_ATTEMPTS as nat).2,
        skeleton_built(&r.0, params.min_straight as int),
        exists|d: Corridor|
            #[trigger] rasterized(r.0.ring@, r.0.hole@, params.block_size as int, &d) && d.wf() && seated(
                &d,
                r.0.dir,
                params.cars,
                &r.1.d,
                &r.1.sf,
                &r.1.grid,
            ),
        r.2@ == opening_events(),
{
    let n = params.min_width();
    let m = params.start_finish_width();
    let k = params.block_size;
    let skel = phase1_coarse_ring(params.min_straight, rng);
    let mut events: Vec<PhaseEvent> = Vec::new();
    events.push(PhaseEvent { phase: Phase::F1, outcome: PhaseOutcome::Clean });
    proof {
        assert forall|c: Point| skel.ring@.contains(c) implies #[trigger] coarse_ok(c) by {}
        assert forall|c: Point| skel.hole@.contains(c) implies #[trigger] coarse_ok(c) by {}
    }
    let corridor = phase2_rasterize(&skel, k, n as i32);
    events.push(PhaseEvent { phase: Phase::F2, outcome: PhaseOutcome::Clean });
    proof {
        lemma_rasterized_box(skel.ring@, skel.hole@, k as int, &corridor);
    }
    let ghost d2 = corridor;
    let out = phase3_start_finish(corridor, &skel, m, params.v_ceiling);
    events.push(PhaseEvent { phase: Phase::F3, outcome: PhaseOutcome::Clean });
    proof {
        assert(events@ =~= opening_events());
        assert(rasterized(skel.ring@, skel.hole@, k as int, &d2));
    }
    (skel, AttemptState { d: out.d, sf: out.sf, grid: out.grid }, events)
}

/// Ends a repair iteration on the open attempt, from its Ф5 decision and
/// the corridor Ф6 produced, if it committed an edit: the result is
/// [`iteration_result_of`]; an accepted attempt is handed on as it stands,
/// a repaired one goes on with the new corridor and the same start/finish
/// and grid, and a given-up one is dropped.
pub fn advance_attempt(state: AttemptState, decision: Phase5Decision, repaired: Option<Corridor>) -> (r: (
    IterationResult,
    Option<AttemptState>,
))
    ensures
        r.0 == iteration_result_of(decision, repaired.is_some()),
        r.0 == IterationResult::Accepted ==> r.1 == Some(state),
        r.0 == IterationResult::Continue ==> r.1 == Some(
            (AttemptState { d: repaired.unwrap(), sf: state.sf, grid: state.grid }),
        ),
        r.0 == IterationResult::GiveUp ==> r.1.is_none(),
{
    let result = iteration_result(decision, repaired.is_some());
    match result {
        IterationResult::Accepted => (result, Some(state)),
        IterationResult::Continue => match repaired {
            Some(nd) => (result, Some(AttemptState { d: nd, sf: state.sf, grid: state.grid })),
            None => (IterationResult::GiveUp, None),
        },
        IterationResult::GiveUp => (result, None),
    }
}

/// A track is accepted only on a clean static check, a slow lap, a
/// lappable verdict and a clean run-out check.
pub proof fn lemma_accept_needs_everything(static_clean: bool, liveness: bool, verdict: OracleVerdict, runout_clean: bool)
    ensures
        phase5_decision(static_clean, liveness, verdict, runout_clean) == Phase5Decision::Accept <==> (static_clean && liveness
            && verdict == OracleVerdict::Lappable && runout_clean),
{
}

} // verus!
