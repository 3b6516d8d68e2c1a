//! Live control panel: what it holds, offers and decides.
//!
//! Everything here is either a solver parameter that is safe to change mid-run
//! (the shaders read them from a uniform, so the next dispatch simply uses new
//! constants) or a rendering choice.  Parameters that change the potential also
//! change the energy of the current configuration, which is called out in the
//! panel rather than hidden.

use vstd::prelude::*;

use crate::accuracy;
use crate::gpu::render::{FieldMode, RenderSettings, COLORMAPS};
use crate::gpu::sim;
use crate::gpu::sim::{Diagnostics, LatticeCap, Simulation, MAX_GRID, MIN_GRID, NO_ENERGY};
use crate::gpu::vram;
use crate::gpu::vram::VramInfo;
use crate::physics::{Model, NucleationMode, SeedSize, MIN_FRICTION};
use crate::scalar;
use crate::scalar::{Scalar, SIX, THREE, ZERO};

verus! {

// ---------------------------------------------------------------------------
//  State
// ---------------------------------------------------------------------------

#[derive(Clone, Copy, Debug)]
pub struct UiState {
    pub visible: bool,
    pub running: bool,
    pub steps_per_frame: u32,
    pub nucleation_mode: NucleationMode,
    pub bubble_count: usize,
    pub nucleation_duration: Scalar,
    pub seed: u64,
    /// Lattice size being edited. Applied only on request, since changing it
    /// reallocates every buffer and restarts the run.
    pub lattice: [u32; 3],
    /// Whether the three axes are edited together.
    pub lattice_cubic: bool,
    /// Total energy at the moment the last nucleation finished; the drift
    /// readout is measured against this.
    pub energy_baseline: Option<Scalar>,
    pub fps: Scalar,
    /// Mean wall-clock time per frame over the last 64 frames, in milliseconds.
    /// Wall clock, not GPU time: with vsync on it is pinned to the display's
    /// refresh interval rather than measuring how much work the frame did.
    pub frame_ms: Scalar,
    /// Worst frame in the same window, which is where stutter shows up.
    pub frame_ms_max: Scalar,
    /// Whether presentation is waiting for vertical blank.
    pub vsync: bool,
}

/// `60`.
pub const START_DURATION: u32 = 0x4270_0000;

/// Whether a lattice is as long along every axis.
pub open spec fn is_cubic(grid: [u32; 3]) -> bool {
    grid[0] == grid[1] && grid[1] == grid[2]
}

impl UiState {
    /// What the panel starts from.
    pub open spec fn standard() -> UiState {
        UiState {
            visible: true,
            running: true,
            steps_per_frame: 2,
            nucleation_mode: NucleationMode::Exponential,
            bubble_count: 12,
            nucleation_duration: Scalar::of_bits(START_DURATION),
            seed: 1,
            lattice: [192, 192, 192],
            lattice_cubic: true,
            energy_baseline: None,
            fps: Scalar::of_bits(ZERO),
            frame_ms: Scalar::of_bits(ZERO),
            frame_ms_max: Scalar::of_bits(ZERO),
            vsync: true,
        }
    }

    /// Point the lattice selection at `grid`.
    ///
    /// Also syncs the `cubic` toggle, because the cubic editor writes
    /// `[n; 3]` back every frame -- so leaving it set for a non-cubic grid
    /// would silently rewrite the selection and make the Apply button look
    /// live when the user has changed nothing.
    pub fn select_lattice(&mut self, grid: [u32; 3])
        ensures
            *final(self) == (UiState {
                lattice: grid,
                lattice_cubic: is_cubic(grid),
                ..*old(self)
            }),
    {
        self.lattice = grid;
        self.lattice_cubic = grid[0] == grid[1] && grid[1] == grid[2];
    }
}

impl Default for UiState {
    fn default() -> (r: UiState)
        ensures
            r == UiState::standard(),
    {
        UiState {
            visible: true,
            running: true,
            steps_per_frame: 2,
            nucleation_mode: NucleationMode::Exponential,
            bubble_count: 12,
            nucleation_duration: Scalar::of_bits(START_DURATION),
            seed: 1,
            lattice: [192, 192, 192],
            lattice_cubic: true,
            energy_baseline: None,
            fps: Scalar::of_bits(ZERO),
            frame_ms: Scalar::of_bits(ZERO),
            frame_ms_max: Scalar::of_bits(ZERO),
            vsync: true,
        }
    }
}

/// What the user asked for this frame.
#[derive(Clone, Copy, Debug)]
pub struct UiCommands {
    pub reset: bool,
    pub reseed_and_reset: bool,
    pub nucleate_now: bool,
    pub single_step: bool,
    pub frame_view: bool,
    /// Rebuild at this lattice size.
    pub resize: Option<[u32; 3]>,
}

impl UiCommands {
    pub open spec fn none() -> UiCommands {
        UiCommands {
            reset: false,
            reseed_and_reset: false,
            nucleate_now: false,
            single_step: false,
            frame_view: false,
            resize: None,
        }
    }
}

impl Default for UiCommands {
    fn default() -> (r: UiCommands)
        ensures
            r == UiCommands::none(),
    {
        UiCommands {
            reset: false,
            reseed_and_reset: false,
            nucleate_now: false,
            single_step: false,
            frame_view: false,
            resize: None,
        }
    }
}

/// What the panel knows of the running simulation.
#[derive(Clone, Copy, Debug)]
pub struct SimInfo {
    pub grid: [u32; 3],
    pub time: Scalar,
    pub steps: u64,
    pub cells: u64,
    pub bubbles_remaining: usize,
    pub device_bytes: u64,
    /// Device memory, when the backend can report it.
    pub vram: Option<VramInfo>,
    /// `max_storage_buffer_binding_size`, a hard API ceiling on the fluid
    /// buffer independent of how much memory is free.
    pub max_storage_binding: u64,
}

// ---------------------------------------------------------------------------
//  Transport and timing
// ---------------------------------------------------------------------------

/// Buttons of the transport bar that were clicked.
#[derive(Clone, Copy, Debug, PartialEq, Eq, Structural)]
pub struct TransportClicks {
    pub run: bool,
    pub step: bool,
    pub reset: bool,
    pub new_seed: bool,
}

/// What the run button says.
pub fn run_label(state: &UiState) -> (r: &'static str)
    ensures
        r@ == if state.running {
            "Pause"@
        } else {
            "Run"@
        },
{
    if state.running {
        "Pause"
    } else {
        "Run"
    }
}

/// Act on the transport bar.
pub fn transport(state: &mut UiState, cmd: &mut UiCommands, clicks: TransportClicks)
    ensures
        *final(state) == (UiState { running: old(state).running != clicks.run, ..*old(state) }),
        *final(cmd) == (UiCommands {
            single_step: old(cmd).single_step || clicks.step,
            reset: old(cmd).reset || clicks.reset,
            reseed_and_reset: old(cmd).reseed_and_reset || clicks.new_seed,
            ..*old(cmd)
        }),
{
    if clicks.run {
        state.running = !state.running;
    }
    if clicks.step {
        cmd.single_step = true;
    }
    if clicks.reset {
        cmd.reset = true;
    }
    if clicks.new_seed {
        cmd.reseed_and_reset = true;
    }
}

/// Milliseconds per step.
pub open spec fn per_step_spec(state: UiState) -> Option<Scalar> {
    if state.running {
        let steps = if state.steps_per_frame >= 1 {
            state.steps_per_frame
        } else {
            1
        };
        Some(state.frame_ms.over(Scalar::of_integer(steps as u64)))
    } else {
        None
    }
}

/// Milliseconds per step.
///
/// The figure only means anything while steps are actually being taken; while
/// paused the frame time is pure rendering, and there is none.
pub fn per_step(state: &UiState) -> (r: Option<Scalar>)
    ensures
        r == per_step_spec(*state),
{
    if state.running {
        let steps: u32 = if state.steps_per_frame >= 1 {
            state.steps_per_frame
        } else {
            1
        };
        Some(state.frame_ms.over(Scalar::of_integer(steps as u64)))
    } else {
        None
    }
}

/// What stands behind the figure per step; while paused, in place of it.
pub fn step_label(state: &UiState) -> (r: &'static str)
    ensures
        r@ == if state.running {
            "ms / step"@
        } else {
            "paused"@
        },
{
    if state.running {
        "ms / step"
    } else {
        "paused"
    }
}

// ---------------------------------------------------------------------------
//  Diagnostics
// ---------------------------------------------------------------------------

/// How well energy is conserved.
#[derive(Clone, Copy, Debug, PartialEq, Eq, Structural)]
pub enum DriftLevel {
    /// Below one part in a thousand.
    Good,
    /// Below one in a hundred.
    Fair,
    Poor,
}

/// `0.001`.
pub const GOOD_DRIFT: u32 = 0x3a83_126f;

/// `0.01`.
pub const FAIR_DRIFT: u32 = 0x3c23_d70a;

pub open spec fn energy_drift_spec(
    baseline: Option<Scalar>,
    energy: Scalar,
) -> Option<(Scalar, DriftLevel)> {
    match baseline {
        Some(base) => if Scalar::of_bits(NO_ENERGY).lt(base.abs()) {
            let drift = energy.minus(base).over(base);
            let level = if drift.abs().lt(Scalar::of_bits(GOOD_DRIFT)) {
                DriftLevel::Good
            } else if drift.abs().lt(Scalar::of_bits(FAIR_DRIFT)) {
                DriftLevel::Fair
            } else {
                DriftLevel::Poor
            };
            Some((drift, level))
        } else {
            None
        },
        None => None,
    }
}

/// Relative change of the total energy since the baseline; nothing while the
/// baseline is pending.
pub fn energy_drift(state: &UiState, diag: &Diagnostics) -> (r: Option<(Scalar, DriftLevel)>)
    ensures
        r == energy_drift_spec(state.energy_baseline, diag.mean_energy),
{
    match state.energy_baseline {
        Some(base) => {
            if Scalar::of_bits(NO_ENERGY).lt(base.abs()) {
                let drift: Scalar = diag.mean_energy.minus(base).over(base);
                let level: DriftLevel = if drift.abs().lt(Scalar::of_bits(GOOD_DRIFT)) {
                    DriftLevel::Good
                } else if drift.abs().lt(Scalar::of_bits(FAIR_DRIFT)) {
                    DriftLevel::Fair
                } else {
                    DriftLevel::Poor
                };
                Some((drift, level))
            } else {
                None
            }
        },
        None => None,
    }
}

/// Measure the drift from now on.
pub fn rezero_baseline(state: &mut UiState, diag: &Diagnostics)
    ensures
        *final(state) == (UiState { energy_baseline: Some(diag.mean_energy), ..*old(state) }),
{
    state.energy_baseline = Some(diag.mean_energy);
}

/// The energy baseline after a frame.
///
/// Stamping a bubble injects its surface and vacuum energy by hand, so the
/// conservation baseline is only meaningful once nucleation is over.
pub open spec fn next_baseline_spec(
    baseline: Option<Scalar>,
    nucleated: bool,
    remaining: usize,
    energy: Scalar,
) -> Option<Scalar> {
    if nucleated {
        None
    } else if baseline is None && remaining == 0 && !energy.same(Scalar::of_bits(ZERO)) {
        Some(energy)
    } else {
        baseline
    }
}

pub fn next_baseline(
    baseline: Option<Scalar>,
    nucleated: bool,
    remaining: usize,
    energy: Scalar,
) -> (r: Option<Scalar>)
    ensures
        r == next_baseline_spec(baseline, nucleated, remaining, energy),
{
    if nucleated {
        None
    } else if baseline.is_none() && remaining == 0 && !energy.same(Scalar::of_bits(ZERO)) {
        Some(energy)
    } else {
        baseline
    }
}

pub open spec fn wall_is_thin_spec(model: &Model) -> bool {
    model.wall_width().lt(Scalar::of_bits(THREE))
}

/// Whether the wall is thinner than three cells.
#[verifier::when_used_as_spec(wall_is_thin_spec)]
pub fn wall_is_thin(model: &Model) -> (r: bool)
    ensures
        r == model.wall_width().lt(Scalar::of_bits(THREE)),
        r == wall_is_thin_spec(model),
{
    model.wall_width().lt(Scalar::of_bits(THREE))
}

// ---------------------------------------------------------------------------
//  Nucleation
// ---------------------------------------------------------------------------

/// What the selected mode is called.
pub fn mode_label(mode: NucleationMode) -> (r: &'static str)
    ensures
        r@ == match mode {
            NucleationMode::Simultaneous => "simultaneous"@,
            NucleationMode::Exponential => "exponential"@,
        },
{
    match mode {
        NucleationMode::Simultaneous => "simultaneous",
        NucleationMode::Exponential => "exponential",
    }
}

/// Whether the duration has any effect.
pub fn duration_matters(state: &UiState) -> (r: bool)
    ensures
        r == (state.nucleation_mode == NucleationMode::Exponential),
{
    state.nucleation_mode == NucleationMode::Exponential
}

/// `0.2`.
pub const LEAST_FACTOR: u32 = 0x3e4c_cccd;

/// `1.05`.
pub const NEAR_CRITICAL: u32 = 0x3f86_6666;

/// A radius in critical radii.
pub open spec fn in_critical_radii_spec(model: &Model, r: Scalar) -> Scalar {
    r.over(model.critical_radius().max(Scalar::of_bits(MIN_FRICTION)))
}

#[verifier::when_used_as_spec(in_critical_radii_spec)]
pub fn in_critical_radii(model: &Model, r: Scalar) -> (ratio: Scalar)
    ensures
        ratio == in_critical_radii_spec(model, r),
{
    r.over(model.critical_radius().max(Scalar::of_bits(MIN_FRICTION)))
}

/// The seed size after the choice of how to give it.
pub open spec fn switched_seed(model: Model, by_factor: bool) -> SeedSize {
    match model.seed_size {
        SeedSize::Cells(r) => if by_factor {
            SeedSize::Critical(
                in_critical_radii(&model, r).clamp(
                    Scalar::of_bits(LEAST_FACTOR),
                    Scalar::of_bits(SIX),
                ),
            )
        } else {
            model.seed_size
        },
        SeedSize::Critical(k) => if by_factor {
            model.seed_size
        } else {
            SeedSize::Cells(k.times(model.critical_radius()))
        },
    }
}

/// Choose whether the seed size is a factor of the critical radius or a number
/// of cells.
///
/// Switching carries the current radius across, so the bubble does not jump
/// size the moment the user changes how it is specified.
pub fn switch_seed(model: &mut Model, by_factor: bool)
    ensures
        *final(model) == (Model { seed_size: switched_seed(*old(model), by_factor), ..*old(model) }),
{
    match model.seed_size {
        SeedSize::Cells(r) => {
            if by_factor {
                let factor: Scalar = in_critical_radii(model, r).clamp(
                    Scalar::of_bits(LEAST_FACTOR),
                    Scalar::of_bits(SIX),
                );
                model.seed_size = SeedSize::Critical(factor);
            }
        },
        SeedSize::Critical(k) => {
            if !by_factor {
                model.seed_size = SeedSize::Cells(k.times(model.critical_radius()));
            }
        },
    }
}

/// Switching to cells leaves the radius of a seed as it is, to the last digit.
pub proof fn law_switch_to_cells_keeps_the_radius(model: Model)
    ensures
        (Model { seed_size: switched_seed(model, false), ..model }).seed_radius()
            == model.seed_radius(),
{
    let switched = Model { seed_size: switched_seed(model, false), ..model };
    assert(switched.critical_radius() == model.critical_radius());
}

/// Switching to a factor leaves the radius of a seed as it is up to rounding, as
/// long as the factor is one that the panel offers.
pub proof fn law_switch_to_factor_keeps_the_radius(model: Model, r: Scalar)
    requires
        model.seed_size == SeedSize::Cells(r),
        accuracy::positive(r),
        accuracy::normal(model.critical_radius()),
        Scalar::of_bits(MIN_FRICTION).le(model.critical_radius()),
        Scalar::of_bits(LEAST_FACTOR).le(in_critical_radii(&model, r)),
        in_critical_radii(&model, r).le(Scalar::of_bits(SIX)),
        accuracy::normal(in_critical_radii(&model, r).times(model.critical_radius())),
    ensures
        switched_seed(model, true) matches SeedSize::Critical(k) && accuracy::near(
            accuracy::exact(k.times(model.critical_radius())),
            accuracy::exact(r),
            3,
        ),
{
    let c = model.critical_radius();
    let k = in_critical_radii(&model, r);
    assert(k == r.over(c));
    accuracy::lemma_positive(r);
    accuracy::lemma_positive(c);
    accuracy::lemma_positive(Scalar::of_bits(LEAST_FACTOR));
    accuracy::lemma_positive(Scalar::of_bits(SIX));
    if k.magnitude() < LEAST_FACTOR {
        scalar::lemma_units_order(k.magnitude(), LEAST_FACTOR as nat);
    }
    if k.magnitude() > SIX {
        scalar::lemma_units_order(SIX as nat, k.magnitude());
    }
    assert(k.bits == k.magnitude());
    accuracy::lemma_over_near(r, c);
    accuracy::lemma_positive(k);
    accuracy::lemma_times_near(k, c);
    let (x, y, z) = (accuracy::exact(r), accuracy::exact(c), accuracy::exact(k));
    accuracy::lemma_quotient_back(x, y);
    accuracy::lemma_quotient_back(1 as real, y);
    accuracy::lemma_near_scales(z, x / y, 1, 1 as real / y);
    assert(z / (1 as real / y) == z * y && (x / y) / (1 as real / y) == x) by (nonlinear_arith)
        requires
            y > 0 as real,
    ;
    accuracy::lemma_near_joins(accuracy::exact(k.times(c)), z * y, 1, x, 1);
}

/// How a seed compares to the critical bubble.
#[derive(Clone, Copy, Debug, PartialEq, Eq, Structural)]
pub enum SeedFate {
    /// It will shrink and vanish.
    Collapses,
    /// Growth or collapse is decided by rounding.
    Undecided,
    Grows,
}

/// What the panel warns of.  Independent failure modes, worth calling out
/// separately.
#[derive(Clone, Copy, Debug, PartialEq, Eq, Structural)]
pub struct SeedWarnings {
    pub fate: SeedFate,
    /// The seed is thinner than the wall; the profile is not resolved.
    pub unresolved: bool,
    /// The critical radius is only a few wall widths, so it is indicative
    /// rather than exact.
    pub thick_wall: bool,
}

pub open spec fn seed_warnings_spec(model: &Model) -> SeedWarnings {
    let r0 = model.seed_radius();
    let r_c = model.critical_radius();
    SeedWarnings {
        fate: if r0.lt(r_c) {
            SeedFate::Collapses
        } else if r0.lt(Scalar::of_bits(NEAR_CRITICAL).times(r_c)) {
            SeedFate::Undecided
        } else {
            SeedFate::Grows
        },
        unresolved: r0.lt(model.wall_width()),
        thick_wall: model.critical_to_wall_ratio().lt(Scalar::of_bits(THREE)),
    }
}

pub fn seed_warnings(model: &Model) -> (r: SeedWarnings)
    ensures
        r == seed_warnings_spec(model),
{
    let r0: Scalar = model.seed_radius();
    let r_c: Scalar = model.critical_radius();
    SeedWarnings {
        fate: if r0.lt(r_c) {
            SeedFate::Collapses
        } else if r0.lt(Scalar::of_bits(NEAR_CRITICAL).times(r_c)) {
            SeedFate::Undecided
        } else {
            SeedFate::Grows
        },
        unresolved: r0.lt(model.wall_width()),
        thick_wall: model.critical_to_wall_ratio().lt(Scalar::of_bits(THREE)),
    }
}

// ---------------------------------------------------------------------------
//  Lattice
// ---------------------------------------------------------------------------

/// What a replacement of the running lattice may occupy.
pub open spec fn budget_of(info: SimInfo) -> Option<u64> {
    match info.vram {
        Some(v) => Some(
            vram::budget_share(vram::saturating_sum(v.available_spec(), info.device_bytes)) as u64,
        ),
        None => None,
    }
}

/// What a replacement of the running lattice may occupy.
///
/// The running lattice is released before the new one is allocated, so its
/// memory counts towards what a replacement may use.
pub fn lattice_budget(info: &SimInfo) -> (r: Option<u64>)
    ensures
        r == budget_of(*info),
{
    match info.vram {
        Some(v) => Some(vram::lattice_budget(v.available(), info.device_bytes)),
        None => None,
    }
}

pub open spec fn panel_cap(info: SimInfo) -> LatticeCap {
    sim::cap_of(info.max_storage_binding, budget_of(info))
}

/// The largest cubic lattice on offer.
///
/// Overshooting what fits is not a recoverable error -- it is a lost device --
/// so the sliders are clamped to it rather than merely warning about it.
pub fn lattice_cap(info: &SimInfo) -> (r: LatticeCap)
    ensures
        r == panel_cap(*info),
        MIN_GRID <= r.side <= MAX_GRID,
{
    let budget: Option<u64> = lattice_budget(info);
    Simulation::max_cubic_size(info.max_storage_binding, budget)
}

/// A number of cells moved into what is on offer.
pub open spec fn offered(n: u32, max_axis: u32) -> u32 {
    sim::clamped(n as nat, MIN_GRID as nat, max_axis as nat) as u32
}

/// A number of cells moved into what is on offer.
pub fn clamp_axis(n: u32, max_axis: u32) -> (r: u32)
    requires
        max_axis >= MIN_GRID,
    ensures
        r == offered(n, max_axis),
        MIN_GRID <= r <= max_axis,
{
    if n < MIN_GRID {
        MIN_GRID
    } else if n > max_axis {
        max_axis
    } else {
        n
    }
}

/// The selection after the sliders: `side` cells each way where the axes are
/// edited together, the three axes as they are otherwise.
pub open spec fn settled(state: UiState, side: u32, max_axis: u32) -> [u32; 3] {
    let edited = if state.lattice_cubic {
        [side, side, side]
    } else {
        state.lattice
    };
    [offered(edited[0], max_axis), offered(edited[1], max_axis), offered(edited[2], max_axis)]
}

/// Take in the sliders.
pub fn settle_lattice(state: &mut UiState, side: u32, max_axis: u32)
    requires
        max_axis >= MIN_GRID,
    ensures
        *final(state) == (UiState {
            lattice: settled(*old(state), side, max_axis),
            ..*old(state)
        }),
{
    let edited: [u32; 3] = if state.lattice_cubic {
        [side, side, side]
    } else {
        state.lattice
    };
    state.lattice = [
        clamp_axis(edited[0], max_axis),
        clamp_axis(edited[1], max_axis),
        clamp_axis(edited[2], max_axis),
    ];
}

/// What is wrong with a selection.
#[derive(Clone, Copy, Debug, PartialEq, Eq, Structural)]
pub enum MemoryWarning {
    Fine,
    /// More than the device has.
    Exceeds,
    /// Other applications may be squeezed.
    Close,
}

/// The figures of a selected lattice.
#[derive(Clone, Copy, Debug, PartialEq, Eq, Structural)]
pub struct Selection {
    pub cells: u64,
    pub bytes: u64,
    pub warning: MemoryWarning,
    /// Free memory is assumed to be the full capacity, so the cap is
    /// optimistic.
    pub optimistic: bool,
    /// Whether it differs from what is running.
    pub changed: bool,
}

/// More than four fifths of the budget is close to it.
pub open spec fn is_close(bytes: nat, budget: Option<u64>) -> bool {
    match budget {
        Some(b) => bytes > (4 * b) / 5,
        None => false,
    }
}

pub open spec fn selection_of(lattice: [u32; 3], info: SimInfo) -> Selection {
    let bytes = 96 * sim::cells(lattice);
    Selection {
        cells: sim::cells(lattice) as u64,
        bytes: bytes as u64,
        warning: match info.vram {
            Some(v) => if bytes > v.capacity {
                MemoryWarning::Exceeds
            } else if is_close(bytes, budget_of(info)) {
                MemoryWarning::Close
            } else {
                MemoryWarning::Fine
            },
            None => MemoryWarning::Fine,
        },
        optimistic: match info.vram {
            Some(v) => !(v.budget is Some && v.used is Some),
            None => false,
        },
        changed: lattice != info.grid,
    }
}

/// The figures of the selected lattice.
pub fn selection(state: &UiState, info: &SimInfo) -> (r: Selection)
    requires
        96 * sim::cells(state.lattice) <= u64::MAX,
    ensures
        r == selection_of(state.lattice, *info),
{
    let bytes: u64 = Simulation::lattice_bytes(state.lattice);
    let budget: Option<u64> = lattice_budget(info);
    let close: bool = match budget {
        Some(b) => bytes as u128 > (4 * (b as u128)) / 5,
        None => false,
    };
    let warning: MemoryWarning = match info.vram {
        Some(v) => if bytes > v.capacity {
            MemoryWarning::Exceeds
        } else if close {
            MemoryWarning::Close
        } else {
            MemoryWarning::Fine
        },
        None => MemoryWarning::Fine,
    };
    let optimistic: bool = match info.vram {
        Some(v) => !v.available_is_measured(),
        None => false,
    };
    let same: bool = state.lattice[0] == info.grid[0] && state.lattice[1] == info.grid[1]
        && state.lattice[2] == info.grid[2];
    assert(same == (state.lattice =~= info.grid));
    Selection { cells: bytes / 96, bytes, warning, optimistic, changed: !same }
}

/// Act on the buttons below the selection, which are live only when it differs
/// from what is running.
pub fn apply_selection(
    state: &mut UiState,
    cmd: &mut UiCommands,
    info: &SimInfo,
    apply: bool,
    revert: bool,
)
    ensures
        ({
            let changed = old(state).lattice != info.grid;
            &&& *final(cmd) == (UiCommands {
                resize: if changed && apply {
                    Some(old(state).lattice)
                } else {
                    old(cmd).resize
                },
                ..*old(cmd)
            })
            &&& *final(state) == if changed && revert {
                UiState { lattice: info.grid, lattice_cubic: is_cubic(info.grid), ..*old(state) }
            } else {
                *old(state)
            }
        }),
{
    let same: bool = state.lattice[0] == info.grid[0] && state.lattice[1] == info.grid[1]
        && state.lattice[2] == info.grid[2];
    assert(same == (state.lattice =~= info.grid));
    if !same && apply {
        cmd.resize = Some(state.lattice);
    }
    if !same && revert {
        state.select_lattice(info.grid);
    }
}

/// Whatever the sliders do, the selection fits both limits, unless even the
/// smallest lattice the stencil allows does not.
pub proof fn law_offered_lattices_fit(state: UiState, side: u32, info: SimInfo)
    requires
        panel_cap(info).side > MIN_GRID,
    ensures
        ({
            let wanted = settled(state, side, panel_cap(info).side);
            &&& sim::fit_fault(wanted, info.max_storage_binding) is None
            &&& 96 * sim::cells(wanted) <= u64::MAX
            &&& budget_of(info) is Some ==> 96 * sim::cells(wanted) <= budget_of(info)->0
        }),
{
    let cap = panel_cap(info).side;
    let wanted = settled(state, side, cap);
    sim::law_capped_lattice_fits(info.max_storage_binding, budget_of(info));
    lemma_cells_bounded(wanted, cap);
    let n = cap as nat;
    assert(n * n * n <= 2048 * 2048 * 2048) by (nonlinear_arith)
        requires
            n <= 2048,
    ;
}

proof fn lemma_cells_bounded(grid: [u32; 3], side: u32)
    requires
        grid[0] <= side,
        grid[1] <= side,
        grid[2] <= side,
    ensures
        sim::cells(grid) <= side as nat * side as nat * side as nat,
{
    let (a, b, c, n) = (grid[0] as nat, grid[1] as nat, grid[2] as nat, side as nat);
    assert(a * b <= n * n) by (nonlinear_arith)
        requires
            a <= n,
            b <= n,
    ;
    assert((a * b) * c <= (n * n) * n) by (nonlinear_arith)
        requires
            a * b <= n * n,
            c <= n,
    ;
}

/// A selection taken from what is running shows no pending change, also after
/// the sliders have had their say.
pub proof fn law_untouched_selection_shows_no_change(state: UiState, info: SimInfo, max_axis: u32)
    requires
        state.lattice == info.grid,
        state.lattice_cubic == is_cubic(info.grid),
        MIN_GRID <= max_axis,
        forall|axis: int|
            0 <= axis < 3 ==> MIN_GRID <= #[trigger] info.grid[axis] && info.grid[axis]
                <= max_axis,
    ensures
        settled(state, offered(state.lattice[0], max_axis), max_axis) == info.grid,
{
    let after = settled(state, offered(state.lattice[0], max_axis), max_axis);
    assert(MIN_GRID <= info.grid[0] && info.grid[0] <= max_axis);
    assert(MIN_GRID <= info.grid[1] && info.grid[1] <= max_axis);
    assert(MIN_GRID <= info.grid[2] && info.grid[2] <= max_axis);
    assert(after =~= info.grid);
}

// ---------------------------------------------------------------------------
//  Visualisation
// ---------------------------------------------------------------------------

/// Show another field; a change brings the gain and the colour map that suit
/// it.
pub fn choose_field(render: &mut RenderSettings, mode: FieldMode)
    ensures
        *final(render) == if mode == old(render).field_mode {
            *old(render)
        } else {
            RenderSettings {
                field_mode: mode,
                field_gain: mode.default_gain(),
                colormap: mode.default_colormap(),
                ..*old(render)
            }
        },
{
    if mode != render.field_mode {
        render.field_mode = mode;
        render.field_gain = mode.default_gain();
        render.colormap = mode.default_colormap();
    }
}

/// Which colour map is shown as selected.
pub fn shown_colormap(render: &RenderSettings) -> (r: usize)
    ensures
        r == if render.colormap < COLORMAPS.len() {
            render.colormap
        } else {
            (COLORMAPS.len() - 1) as usize
        },
{
    if render.colormap < 3 {
        render.colormap
    } else {
        2
    }
}

/// Choose a cutaway by its place in the row: off, x, y, z.
pub fn choose_cutaway(render: &mut RenderSettings, choice: u32)
    requires
        choice < 4,
    ensures
        *final(render) == (RenderSettings { clip_axis: (choice - 1) as i32, ..*old(render) }),
{
    render.clip_axis = choice as i32 - 1;
}

} // verus!
