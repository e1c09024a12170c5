//! The state and formatting logic of the game's screens: the navigation
//! shell, the race configuration, the lab's phase badges and header tags,
//! the race standings and the results summary.

use vstd::prelude::*;
use vstd::string::StringExecFns;
use crate::decimal::{dec_str, push_decimal};

verus! {

/// Optional analytics overlays of the track canvas.
#[derive(Clone, Copy, Debug, Default, PartialEq, Eq, Structural)]
pub struct Overlays {
    /// Color the asphalt by the speed heatmap.
    pub speed_heatmap: bool,
    /// Draw the fastest lap as the ideal line.
    pub fastest_lap: bool,
    /// Draw the graph-paper grid and dots.
    pub grid: bool,
}

/// The four navigable screens.
#[derive(Clone, Copy, Debug, PartialEq, Eq, Structural)]
pub enum Screen {
    /// The new-race configuration screen.
    Setup,
    /// The generated-track lab screen.
    Lab,
    /// The live race screen.
    Race,
    /// The finished-race results screen.
    Results,
}

/// One frame's navigation intent.
#[derive(Clone, Copy, Debug, PartialEq, Eq, Structural)]
pub enum Nav {
    /// A track was generated: go to the lab and latch `has_generated`.
    Generate,
    /// Test lap from the lab: go to the race.
    TestLap,
    /// Back to the menu (the setup screen).
    Menu,
    /// Regenerate in the lab: stays put.
    Regenerate,
    /// The race finished: go to the results.
    Finish,
    /// Race again from the results: go to the race.
    Again,
    /// A top-bar jump, subject to [`AppShell::can_nav`].
    JumpTo(Screen),
}

/// The pilot difficulty; `Ace` is the strongest, smoothest pilot and
/// `Rookie` the noisiest.
#[derive(Clone, Copy, Debug, PartialEq, Eq, Structural)]
pub enum Difficulty {
    /// The noisiest pilot.
    Rookie,
    /// The middle pilot.
    Pro,
    /// The strongest, smoothest pilot.
    Ace,
}

/// The segmented-control option labels, in [`Difficulty::to_index`] order.
pub const DIFFICULTY_LABELS: [&'static str; 3] = ["Rookie", "Pro", "Ace"];

/// A difficulty's index into [`DIFFICULTY_LABELS`].
pub open spec fn difficulty_index(d: Difficulty) -> int {
    match d {
        Difficulty::Rookie => 0,
        Difficulty::Pro => 1,
        Difficulty::Ace => 2,
    }
}

impl Difficulty {
    /// This difficulty's display label — always
    /// `DIFFICULTY_LABELS[self.to_index()]`.
    pub fn label(self) -> (r: &'static str)
        ensures
            r@ == DIFFICULTY_LABELS@[difficulty_index(self)]@,
    {
        match self {
            Difficulty::Rookie => "Rookie",
            Difficulty::Pro => "Pro",
            Difficulty::Ace => "Ace",
        }
    }

    /// This difficulty's 0-based index into [`DIFFICULTY_LABELS`].
    pub fn to_index(self) -> (r: usize)
        ensures
            r == difficulty_index(self),
    {
        match self {
            Difficulty::Rookie => 0,
            Difficulty::Pro => 1,
            Difficulty::Ace => 2,
        }
    }

    /// The difficulty at 0-based `index`, or `None` for any other index.
    pub fn from_index(index: usize) -> (r: Option<Difficulty>)
        ensures
            r matches Some(d) ==> difficulty_index(d) == index,
            r is None <==> index > 2,
    {
        match index {
            0 => Some(Difficulty::Rookie),
            1 => Some(Difficulty::Pro),
            2 => Some(Difficulty::Ace),
            _ => None,
        }
    }
}

/// `from_index` undoes `to_index` for every difficulty.
pub proof fn lemma_index_round_trip(d: Difficulty, e: Difficulty)
    ensures
        difficulty_index(d) == difficulty_index(e) ==> d == e,
        0 <= difficulty_index(d) <= 2,
{
}

/// The assembled race configuration.
#[derive(Clone, Copy, Debug, PartialEq, Eq, Structural)]
pub struct RaceConfig {
    /// Number of cars.
    pub cars: u32,
    /// Number of laps.
    pub laps: u32,
    /// The design-speed input `V_target`, whole cells per turn.
    pub v_target: i32,
    /// The chosen pilot difficulty.
    pub difficulty: Difficulty,
}

/// The draw-only router's state: the current screen, the race
/// configuration, the overlays, and whether a track has been generated.
#[derive(Clone, Copy, Debug)]
pub struct AppShell {
    screen: Screen,
    config: RaceConfig,
    overlays: Overlays,
    has_generated: bool,
}

/// The screen a navigation intent leads to from `screen`, given whether a
/// track has been generated.
pub open spec fn nav_target(screen: Screen, has_generated: bool, nav: Nav) -> Screen {
    match nav {
        Nav::Generate => Screen::Lab,
        Nav::TestLap | Nav::Again => Screen::Race,
        Nav::Menu => Screen::Setup,
        Nav::Finish => Screen::Results,
        Nav::Regenerate => screen,
        Nav::JumpTo(target) => if target == Screen::Setup || has_generated { target } else { screen },
    }
}

impl AppShell {
    /// The current screen.
    pub closed spec fn screen_of(&self) -> Screen {
        self.screen
    }

    /// The race configuration.
    pub closed spec fn config_of(&self) -> RaceConfig {
        self.config
    }

    /// The overlays.
    pub closed spec fn overlays_of(&self) -> Overlays {
        self.overlays
    }

    /// Whether the first generation has happened.
    pub closed spec fn generated(&self) -> bool {
        self.has_generated
    }

    /// A fresh shell on the setup screen, with `config`, all overlays off,
    /// and nothing generated yet.
    pub fn new(config: RaceConfig) -> (r: Self)
        ensures
            r.screen_of() == Screen::Setup,
            r.config_of() == config,
            r.overlays_of() == (Overlays { speed_heatmap: false, fastest_lap: false, grid: false }),
            !r.generated(),
    {
        AppShell {
            screen: Screen::Setup,
            config,
            overlays: Overlays { speed_heatmap: false, fastest_lap: false, grid: false },
            has_generated: false,
        }
    }

    /// The current screen.
    pub fn screen(&self) -> (r: Screen)
        ensures
            r == self.screen_of(),
    {
        self.screen
    }

    /// The current race configuration.
    pub fn config(&self) -> (r: RaceConfig)
        ensures
            r == self.config_of(),
    {
        self.config
    }

    /// The current overlays.
    pub fn overlays(&self) -> (r: Overlays)
        ensures
            r == self.overlays_of(),
    {
        self.overlays
    }

    /// Whether the first `Generate` intent has fired.
    pub fn has_generated(&self) -> (r: bool)
        ensures
            r == self.generated(),
    {
        self.has_generated
    }

    /// Replaces the race configuration.
    pub fn set_config(&mut self, config: RaceConfig)
        ensures
            final(self).config_of() == config,
            final(self).screen_of() == old(self).screen_of(),
            final(self).overlays_of() == old(self).overlays_of(),
            final(self).generated() == old(self).generated(),
    {
        self.config = config;
    }

    /// Replaces the overlays.
    pub fn set_overlays(&mut self, overlays: Overlays)
        ensures
            final(self).overlays_of() == overlays,
            final(self).screen_of() == old(self).screen_of(),
            final(self).config_of() == old(self).config_of(),
            final(self).generated() == old(self).generated(),
    {
        self.overlays = overlays;
    }

    /// Whether a top-bar jump to `target` is allowed: the setup screen
    /// always, the others once a track has been generated.
    pub fn can_nav(&self, target: Screen) -> (r: bool)
        ensures
            r == (target == Screen::Setup || self.generated()),
    {
        match target {
            Screen::Setup => true,
            _ => self.has_generated,
        }
    }

    /// Applies one frame's navigation intent. A jump the guard refuses is a
    /// no-op, and so is `Regenerate`; the configuration and the overlays
    /// are never touched, and `has_generated` only ever latches on.
    pub fn apply(&mut self, nav: Nav)
        ensures
            final(self).screen_of() == nav_target(old(self).screen_of(), old(self).generated(), nav),
            final(self).generated() == (old(self).generated() || nav == Nav::Generate),
            final(self).config_of() == old(self).config_of(),
            final(self).overlays_of() == old(self).overlays_of(),
    {
        match nav {
            Nav::Generate => {
                self.has_generated = true;
                self.screen = Screen::Lab;
            },
            Nav::TestLap | Nav::Again => {
                self.screen = Screen::Race;
            },
            Nav::Menu => {
                self.screen = Screen::Setup;
            },
            Nav::Finish => {
                self.screen = Screen::Results;
            },
            Nav::JumpTo(target) => {
                if self.can_nav(target) {
                    self.screen = target;
                }
            },
            Nav::Regenerate => {},
        }
    }
}

/// The lab screen's intent for one frame, from the buttons it reports:
/// a test lap wins over the menu, and the menu over regeneration.
pub fn lab_nav(test_lap: bool, menu: bool, regenerate: bool) -> (r: Option<Nav>)
    ensures
        test_lap ==> r == Some(Nav::TestLap),
        !test_lap && menu ==> r == Some(Nav::Menu),
        !test_lap && !menu && regenerate ==> r == Some(Nav::Regenerate),
        !test_lap && !menu && !regenerate ==> r.is_none(),
{
    if test_lap {
        Some(Nav::TestLap)
    } else if menu {
        Some(Nav::Menu)
    } else if regenerate {
        Some(Nav::Regenerate)
    } else {
        None
    }
}

/// The results screen's intent for one frame: racing again wins over the
/// menu.
pub fn results_nav(again: bool, menu: bool) -> (r: Option<Nav>)
    ensures
        again ==> r == Some(Nav::Again),
        !again && menu ==> r == Some(Nav::Menu),
        !again && !menu ==> r.is_none(),
{
    if again {
        Some(Nav::Again)
    } else if menu {
        Some(Nav::Menu)
    } else {
        None
    }
}

/// The shell's intent for one frame: the current screen's own intent wins
/// over a top-bar jump, which is taken only when the screen has none.
pub fn shell_nav(screen_nav: Option<Nav>, jump: Option<Screen>) -> (r: Option<Nav>)
    ensures
        screen_nav is Some ==> r == screen_nav,
        screen_nav is None ==> r == (match jump {
            Some(target) => Some(Nav::JumpTo(target)),
            None => None,
        }),
{
    match screen_nav {
        Some(nav) => Some(nav),
        None => match jump {
            Some(target) => Some(Nav::JumpTo(target)),
            None => None,
        },
    }
}

/// The race screen's action for one frame: a click on the coast shortcut
/// gives `coast` and wins over the move pad; otherwise the pad's selection
/// when it changed this frame; otherwise none.
pub fn race_action<A>(coast_clicked: bool, coast: A, pad_changed: bool, pad_selected: Option<A>) -> (r: Option<A>)
    ensures
        coast_clicked ==> r == Some(coast),
        !coast_clicked && pad_changed ==> r == pad_selected,
        !coast_clicked && !pad_changed ==> r.is_none(),
{
    if coast_clicked {
        Some(coast)
    } else if pad_changed {
        pad_selected
    } else {
        None
    }
}

/// Before the first generation, no sequence of jumps and regenerations
/// leaves the setup screen... one step at a time: from the setup screen
/// without a generated track, any intent other than `Generate`, `TestLap`,
/// `Again` and `Finish` stays on the setup screen.
pub proof fn lemma_guard_holds_before_generate(nav: Nav)
    requires
        nav == Nav::Menu || nav == Nav::Regenerate || nav is JumpTo,
    ensures
        nav_target(Screen::Setup, false, nav) == Screen::Setup,
{
}

/// Once generated, a jump always reaches its target.
pub proof fn lemma_jump_after_generate(screen: Screen, target: Screen)
    ensures
        nav_target(screen, true, Nav::JumpTo(target)) == target,
{
}

/// The configuration a setup screen starts from and edits.
#[derive(Clone, Copy, Debug)]
pub struct SetupScreen {
    config: RaceConfig,
}

impl SetupScreen {
    /// The screen's live configuration.
    pub closed spec fn config_of(&self) -> RaceConfig {
        self.config
    }

    /// A setup screen starting from `config`.
    pub fn new(config: RaceConfig) -> (r: Self)
        ensures
            r.config_of() == config,
    {
        SetupScreen { config }
    }
}

/// The fewest cars a race may have.
pub const MIN_CARS: i32 = 2;
/// The most cars a race may have.
pub const MAX_CARS: i32 = 6;
/// The fewest laps a race may have.
pub const MIN_LAPS: i32 = 1;
/// The most laps a race may have.
pub const MAX_LAPS: i32 = 9;
/// The least design speed, whole cells per turn.
pub const MIN_V_TARGET: i32 = 3;
/// The greatest design speed, whole cells per turn.
pub const MAX_V_TARGET: i32 = 10;

/// `v` clamped into `[lo, hi]`.
pub open spec fn clamped(v: int, lo: int, hi: int) -> int {
    if v < lo {
        lo
    } else if v > hi {
        hi
    } else {
        v
    }
}

/// Clamping into `[lo, hi]` keeps a value inside the range as it is,
/// lifts one below it to `lo` and lowers one above it to `hi`, so the
/// result always lies in the range.
pub proof fn lemma_clamped_keeps_in_range(v: int, lo: int, hi: int)
    requires
        lo <= hi,
    ensures
        lo <= clamped(v, lo, hi) <= hi,
        lo <= v <= hi ==> clamped(v, lo, hi) == v,
        v < lo ==> clamped(v, lo, hi) == lo,
        v > hi ==> clamped(v, lo, hi) == hi,
{
}

fn clamp_i32(v: i32, lo: i32, hi: i32) -> (r: i32)
    requires
        lo <= hi,
    ensures
        r == clamped(v as int, lo as int, hi as int),
        lo <= r <= hi,
        lo <= v <= hi ==> r == v,
        v < lo ==> r == lo,
        v > hi ==> r == hi,
{
    if v < lo {
        lo
    } else if v > hi {
        hi
    } else {
        v
    }
}

/// The race configuration the setup widgets describe: cars clamped into
/// `[2, 6]`, laps into `[1, 9]`, and the design speed, already rounded to
/// whole cells per turn, into `[3, 10]`.
pub fn race_config(cars: i32, laps: i32, v_target: i32, difficulty: Difficulty) -> (r: RaceConfig)
    ensures
        r.cars == clamped(cars as int, MIN_CARS as int, MAX_CARS as int),
        r.laps == clamped(laps as int, MIN_LAPS as int, MAX_LAPS as int),
        r.v_target == clamped(v_target as int, MIN_V_TARGET as int, MAX_V_TARGET as int),
        r.difficulty == difficulty,
        MIN_CARS <= cars <= MAX_CARS ==> r.cars == cars,
        MIN_LAPS <= laps <= MAX_LAPS ==> r.laps == laps,
        MIN_V_TARGET <= v_target <= MAX_V_TARGET ==> r.v_target == v_target,
        cars < MIN_CARS ==> r.cars == MIN_CARS,
        cars > MAX_CARS ==> r.cars == MAX_CARS,
        laps < MIN_LAPS ==> r.laps == MIN_LAPS,
        laps > MAX_LAPS ==> r.laps == MAX_LAPS,
        v_target < MIN_V_TARGET ==> r.v_target == MIN_V_TARGET,
        v_target > MAX_V_TARGET ==> r.v_target == MAX_V_TARGET,
{
    let c = clamp_i32(cars, MIN_CARS, MAX_CARS);
    let l = clamp_i32(laps, MIN_LAPS, MAX_LAPS);
    let v = clamp_i32(v_target, MIN_V_TARGET, MAX_V_TARGET);
    RaceConfig { cars: c as u32, laps: l as u32, v_target: v, difficulty }
}

/// The canvas overlays the lab screen always draws with: all on.
pub fn lab_overlays() -> (r: Overlays)
    ensures
        r == (Overlays { speed_heatmap: true, fastest_lap: true, grid: true }),
{
    Overlays { speed_heatmap: true, fastest_lap: true, grid: true }
}

/// The generation phase ids.
pub const PHASE_IDS: [&'static str; 7] = ["Ф1", "Ф2", "Ф3", "Ф4", "Ф5", "Ф6", "Ф7"];

/// The generation phase names, in [`PHASE_IDS`] order.
pub const PHASE_NAMES: [&'static str; 7] = [
    "Coarse ring (infield-first)",
    "Rasterize to points D",
    "Start / finish + grid",
    "Static validation",
    "Passability oracle",
    "Local repair",
    "Output artifact",
];

/// A generation phase's status, declared in ascending severity so that
/// the derived order is `Pending < Skipped < Clean < Repair < Failed` and
/// the worst status across attempts is a plain maximum.
#[derive(Clone, Copy, Debug, PartialEq, Eq, PartialOrd, Ord, Structural)]
pub enum PhaseStatus {
    /// Not reached yet.
    Pending,
    /// Finished without ever executing this phase.
    Skipped,
    /// Completed cleanly.
    Clean,
    /// Needed local repair.
    Repair,
    /// Produced a blocking issue on some attempt.
    Failed,
}

/// The tone of a status badge.
#[derive(Clone, Copy, Debug, PartialEq, Eq, Structural)]
pub enum BadgeTone {
    /// No judgement.
    Neutral,
    /// Success.
    Clean,
    /// A warning.
    Warn,
    /// A failure.
    Danger,
}

/// A phase status's severity rank, in declaration order.
pub open spec fn status_rank(s: PhaseStatus) -> int {
    match s {
        PhaseStatus::Pending => 0,
        PhaseStatus::Skipped => 1,
        PhaseStatus::Clean => 2,
        PhaseStatus::Repair => 3,
        PhaseStatus::Failed => 4,
    }
}

/// The status badge of a phase status: its tone and label.
pub fn phase_badge(status: PhaseStatus) -> (r: (BadgeTone, &'static str))
    ensures
        status == PhaseStatus::Pending ==> r.0 == BadgeTone::Neutral && r.1@ == "…"@,
        status == PhaseStatus::Skipped ==> r.0 == BadgeTone::Neutral && r.1@ == "skip"@,
        status == PhaseStatus::Clean ==> r.0 == BadgeTone::Clean && r.1@ == "✓"@,
        status == PhaseStatus::Repair ==> r.0 == BadgeTone::Warn && r.1@ == "repair"@,
        status == PhaseStatus::Failed ==> r.0 == BadgeTone::Danger && r.1@ == "failed"@,
{
    match status {
        PhaseStatus::Pending => (BadgeTone::Neutral, "…"),
        PhaseStatus::Skipped => (BadgeTone::Neutral, "skip"),
        PhaseStatus::Clean => (BadgeTone::Clean, "✓"),
        PhaseStatus::Repair => (BadgeTone::Warn, "repair"),
        PhaseStatus::Failed => (BadgeTone::Danger, "failed"),
    }
}

/// A short grid's seating outcome: `seated` of `requested` cars.
#[derive(Clone, Copy, Debug, PartialEq, Eq, Structural)]
pub struct SeatedGrid {
    /// The number of cars actually seated.
    pub seated: u32,
    /// The number of cars requested.
    pub requested: u32,
}

/// The lab header's tag labels: `"seed <N>"` always, then `"seated N of M"`
/// when the grid seated fewer cars than requested.
pub open spec fn header_labels(seed: u64, seated: Option<SeatedGrid>) -> Seq<Seq<char>> {
    let first = "seed "@ + dec_str(seed as nat);
    match seated {
        Some(g) => if g.seated < g.requested {
            seq![first, "seated "@ + dec_str(g.seated as nat) + " of "@ + dec_str(g.requested as nat)]
        } else {
            seq![first]
        },
        None => seq![first],
    }
}

/// Formats the lab header's tag labels: `"seed <N>"` always (the full
/// `u64`, never truncated), plus `"seated N of M"` only when a seating
/// outcome is given and it is short.
pub fn header_tag_labels(seed: u64, seated: Option<SeatedGrid>) -> (r: Vec<String>)
    ensures
        r@.len() == header_labels(seed, seated).len(),
        forall|i: int| 0 <= i < r@.len() ==> #[trigger] r@[i]@ == header_labels(seed, seated)[i],
{
    let mut first = String::new();
    first.append("seed ");
    push_decimal(&mut first, seed);
    let mut labels: Vec<String> = Vec::new();
    labels.push(first);
    match seated {
        Some(g) => {
            if g.seated < g.requested {
                let mut second = String::new();
                second.append("seated ");
                push_decimal(&mut second, g.seated as u64);
                second.append(" of ");
                push_decimal(&mut second, g.requested as u64);
                labels.push(second);
            }
        },
        None => {},
    }
    proof {
        assert(Seq::<char>::empty() + "seed "@ == "seed "@);
        assert(Seq::<char>::empty() + "seated "@ == "seated "@);
    }
    labels
}

/// Maps the three toolbar switches to overlays, each switch driving exactly
/// its own field.
pub fn overlays_from_switches(grid: bool, heatmap: bool, fastest_lap: bool) -> (r: Overlays)
    ensures
        r == (Overlays { speed_heatmap: heatmap, fastest_lap, grid }),
{
    Overlays { grid, speed_heatmap: heatmap, fastest_lap }
}

/// Whether a car is the player's or an AI's.
#[derive(Clone, Copy, Debug, PartialEq, Eq, Structural)]
pub enum CarKind {
    /// The player's car.
    You,
    /// An AI car.
    Ai,
}

/// The car names, in car-index order.
pub const CAR_NAMES: [&'static str; 6] = ["You", "Rival Blue", "Rival Green", "Rival Amber", "Rival Plum", "Rival Teal"];

/// The name of car `index`: its entry in [`CAR_NAMES`], or `"Car"` past
/// the table.
pub fn car_name(index: usize) -> (r: &'static str)
    ensures
        index < 6 ==> r@ == CAR_NAMES@[index as int]@,
        index >= 6 ==> r@ == "Car"@,
{
    if index < 6 {
        CAR_NAMES[index]
    } else {
        "Car"
    }
}

/// One standings row's `(name, kind, rank, active)`: index 0 is the player
/// (active, rank 1), every other index an inactive AI ranked `index + 1`;
/// an index past the name table is named `"Car"`.
pub fn standings_entry(index: usize) -> (r: (&'static str, CarKind, u32, bool))
    ensures
        index < 6 ==> r.0@ == CAR_NAMES@[index as int]@,
        index >= 6 ==> r.0@ == "Car"@,
        r.1 == if index == 0 { CarKind::You } else { CarKind::Ai },
        r.2 == if index + 1 <= u32::MAX { index + 1 } else { u32::MAX as int },
        r.3 == (index == 0),
{
    let name = car_name(index);
    let kind = if index == 0 { CarKind::You } else { CarKind::Ai };
    let active = index == 0;
    let next: usize = if index < usize::MAX { index + 1 } else { usize::MAX };
    let rank: u32 = if next <= 0xffff_ffff { next as u32 } else { u32::MAX };
    (name, kind, rank, active)
}

/// One car's finished-race outcome.
#[derive(Clone, Copy, Debug, PartialEq, Eq, Structural)]
pub struct StandingEntry {
    /// The car's stable identity (names and colors index by it).
    pub car_index: usize,
    /// Player or AI — the authoritative player signal.
    pub kind: CarKind,
    /// Finishing rank.
    pub rank: u32,
    /// The turn the car finished on, if it finished.
    pub finish_turn: Option<u32>,
}

/// The rank of the first player entry of `entries`, or `None` when there is
/// none.
pub fn player_position(entries: &[StandingEntry]) -> (r: Option<u32>)
    ensures
        r is None <==> forall|i: int| 0 <= i < entries@.len() ==> #[trigger] entries@[i].kind != CarKind::You,
        r matches Some(rank) ==> exists|i: int| 0 <= i < entries@.len() && #[trigger] entries@[i].kind == CarKind::You
            && entries@[i].rank == rank && forall|j: int| 0 <= j < i ==> #[trigger] entries@[j].kind != CarKind::You,
{
    let mut i: usize = 0;
    while i < entries.len()
        invariant
            i <= entries@.len(),
            forall|j: int| 0 <= j < i ==> #[trigger] entries@[j].kind != CarKind::You,
        decreases entries@.len() - i,
    {
        let e = entries[i];
        if e.kind == CarKind::You {
            return Some(e.rank);
        }
        i = i + 1;
    }
    None
}

/// The placeholder of a missing value.
pub const PLACEHOLDER: &'static str = "—";

/// The finish-time label of a finish turn: `"<N> turns"`, or the
/// placeholder for a car that never finished.
pub open spec fn finish_label(turn: Option<u32>) -> Seq<char> {
    match turn {
        Some(t) => dec_str(t as nat) + " turns"@,
        None => PLACEHOLDER@,
    }
}

/// Formats a finish turn: `"<N> turns"`, or `"—"` for a non-finisher.
pub fn finish_time(turn: Option<u32>) -> (r: String)
    ensures
        r@ == finish_label(turn),
{
    match turn {
        Some(t) => {
            let mut s = String::new();
            push_decimal(&mut s, t as u64);
            s.append(" turns");
            proof {
                assert(Seq::<char>::empty() + dec_str(t as nat) == dec_str(t as nat));
            }
            s
        },
        None => {
            let mut s = String::new();
            s.append(PLACEHOLDER);
            proof {
                assert(Seq::<char>::empty() + PLACEHOLDER@ == PLACEHOLDER@);
            }
            s
        },
    }
}

/// The six car colors as packed `0xRRGGBBAA`, indexed by 0-based car
/// index: chalk red, blue, green, amber, plum and teal, all opaque.
pub const CAR_COLORS: [u32; 6] = [0xE24A_2BFF, 0x2E6F_B5FF, 0x2E9E_5BFF, 0xE8B2_3AFF, 0x7B4B_9EFF, 0x1799_9BFF];

/// The color of car `index`, or `None` past the six.
pub fn car_color(index: usize) -> (r: Option<u32>)
    ensures
        index < 6 ==> r == Some(CAR_COLORS@[index as int]),
        index >= 6 ==> r is None,
{
    if index < 6 {
        Some(CAR_COLORS[index])
    } else {
        None
    }
}

/// The color a standings row shows for car `index`: its own, or the
/// first car's past the six.
pub open spec fn row_color(index: usize) -> u32 {
    if index < 6 {
        CAR_COLORS@[index as int]
    } else {
        CAR_COLORS@[0]
    }
}

/// One resolved final-standings row.
#[derive(Clone, Debug, PartialEq, Eq)]
pub struct StandingRow {
    /// The car's display name, resolved from its stable identity.
    pub name: &'static str,
    /// The car's color as packed `0xRRGGBBAA`, resolved from the same
    /// identity.
    pub color: u32,
    /// Player or AI.
    pub kind: CarKind,
    /// Finishing rank.
    pub rank: u32,
    /// The formatted finish turn.
    pub finish_time: String,
}

/// Resolves `entries`, in slice order, into their rows: the name and the
/// color by each entry's `car_index` (its stable identity, not its
/// position in the slice), its kind and rank as they are, and its finish
/// turn formatted.
pub fn standings_rows(entries: &[StandingEntry]) -> (r: Vec<StandingRow>)
    ensures
        r@.len() == entries@.len(),
        forall|i: int| 0 <= i < r@.len() ==> {
            &&& (entries@[i].car_index < 6 ==> (#[trigger] r@[i]).name@ == CAR_NAMES@[entries@[i].car_index as int]@)
            &&& (entries@[i].car_index >= 6 ==> r@[i].name@ == "Car"@)
            &&& r@[i].color == row_color(entries@[i].car_index)
            &&& r@[i].kind == entries@[i].kind
            &&& r@[i].rank == entries@[i].rank
            &&& r@[i].finish_time@ == finish_label(entries@[i].finish_turn)
        },
{
    let mut rows: Vec<StandingRow> = Vec::new();
    let mut i: usize = 0;
    while i < entries.len()
        invariant
            i <= entries@.len(),
            rows@.len() == i,
            forall|j: int| 0 <= j < i ==> {
                &&& (entries@[j].car_index < 6 ==> (#[trigger] rows@[j]).name@ == CAR_NAMES@[entries@[j].car_index as int]@)
                &&& (entries@[j].car_index >= 6 ==> rows@[j].name@ == "Car"@)
                &&& rows@[j].color == row_color(entries@[j].car_index)
                &&& rows@[j].kind == entries@[j].kind
                &&& rows@[j].rank == entries@[j].rank
                &&& rows@[j].finish_time@ == finish_label(entries@[j].finish_turn)
            },
        decreases entries@.len() - i,
    {
        let e = entries[i];
        let color = match car_color(e.car_index) {
            Some(c) => c,
            None => CAR_COLORS[0],
        };
        let row = StandingRow { name: car_name(e.car_index), color, kind: e.kind, rank: e.rank, finish_time: finish_time(e.finish_turn) };
        rows.push(row);
        i = i + 1;
    }
    rows
}

/// The three summary-tile labels.
pub const SUMMARY_LABELS: [&'static str; 3] = ["Fastest lap, turns", "Tempo, cells/turn", "Crashes"];

/// The vendored icon set.
#[derive(Clone, Copy, Debug, PartialEq, Eq, Hash, Structural)]
pub enum Icon {
    /// `play`.
    Play,
    /// `pause`.
    Pause,
    /// `grid-3x3`.
    Grid3x3,
    /// `zoom-in`.
    ZoomIn,
    /// `settings`.
    Settings,
}

/// Every icon, in declaration order.
pub const ICONS: [Icon; 5] = [Icon::Play, Icon::Pause, Icon::Grid3x3, Icon::ZoomIn, Icon::Settings];

impl Icon {
    /// The icon's registration key and cache label.
    pub fn name(self) -> (r: &'static str)
        ensures
            self == Icon::Play ==> r@ == "play"@,
            self == Icon::Pause ==> r@ == "pause"@,
            self == Icon::Grid3x3 ==> r@ == "grid-3x3"@,
            self == Icon::ZoomIn ==> r@ == "zoom-in"@,
            self == Icon::Settings ==> r@ == "settings"@,
    {
        match self {
            Icon::Play => "play",
            Icon::Pause => "pause",
            Icon::Grid3x3 => "grid-3x3",
            Icon::ZoomIn => "zoom-in",
            Icon::Settings => "settings",
        }
    }
}

} // verus!
