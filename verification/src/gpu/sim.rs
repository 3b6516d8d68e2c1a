//! The simulation itself: parameter blocks, the time step, and the state that
//! the host keeps of it.
//!
//! All lattice state lives in device memory for the whole run.  The host turns
//! its decisions into a list of [`Command`]s.  The only readback is a 32-byte
//! diagnostics block, fetched asynchronously and one frame late, purely so the
//! panel can print numbers; see [`Simulation::poll_diagnostics`].

use rand_pcg::Pcg64Mcg;
use vstd::arithmetic::power2::*;
use vstd::prelude::*;

use crate::gpu::resources::{
    BufferId, GroupId, PipelineId, DIAG_BYTES, FIELD_CELL, FLUID_CELL, MAX_BUBBLES, N_PARTIALS,
    VIS_CELL,
};
use crate::gpu::bytes;
use crate::gpu::preprocess::Precision;
use crate::gpu::resources;
use crate::physics;
use crate::physics::{BubbleEvent, Model, NucleationMode};
use crate::random;
use crate::rounding;
use crate::scalar;
use crate::scalar::{Scalar, ONE, QUARTER, ZERO};

verus! {

/// Threads per workgroup along x for the lattice passes.  Consecutive threads
/// then touch consecutive linear indices, which is what the memory system wants.
pub const WG_X: u32 = 64;

/// Smallest lattice the MUSCL stencil can address without a cell reaching its
/// own periodic image.
pub const MIN_GRID: u32 = 8;

/// Upper bound offered in the panel. Well past what any current device can
/// hold; it exists so the slider range stays finite when memory cannot be
/// queried.
pub const MAX_GRID: u32 = 2048;

// ---------------------------------------------------------------------------
//  Lattice sizes
// ---------------------------------------------------------------------------

/// Number of cells of a lattice.
pub open spec fn cells(grid: [u32; 3]) -> nat {
    grid[0] as nat * grid[1] as nat * grid[2] as nat
}

/// Whether `side` is the largest whose cube does not exceed `n`.
pub open spec fn is_cube_side(n: nat, side: nat) -> bool {
    side * side * side <= n < (side + 1) * (side + 1) * (side + 1)
}

/// Cells of a cube.
pub open spec fn cube(side: nat) -> nat {
    side * side * side
}

/// Cells per side of the largest cube of at most `n` cells.
pub open spec fn cube_side(n: nat) -> nat {
    choose|side: nat| is_cube_side(n, side)
}

pub proof fn lemma_cube_order(a: nat, b: nat)
    requires
        a <= b,
    ensures
        a * a * a <= b * b * b,
{
    assert(a * a <= b * b) by (nonlinear_arith)
        requires
            a <= b,
    ;
    assert((a * a) * a <= (b * b) * b) by (nonlinear_arith)
        requires
            a <= b,
            a * a <= b * b,
    ;
}

/// A number has one cube root in whole cells.
proof fn lemma_cube_side(n: nat, side: nat)
    requires
        is_cube_side(n, side),
    ensures
        cube_side(n) == side,
{
    let other = cube_side(n);
    assert(is_cube_side(n, other));
    if other < side {
        lemma_cube_order(other + 1, side);
    }
    if side < other {
        lemma_cube_order(side + 1, other);
    }
}

/// Cells per side of the largest cube of at most `n` cells.
fn side_of(n: u64) -> (r: u32)
    ensures
        r == cube_side(n as nat),
        is_cube_side(n as nat, r as nat),
{
    let mut low: u64 = 0;
    let mut high: u64 = 0x30_0000;
    assert((low * low) * low == 0);
    assert(0x30_0000 * 0x30_0000 * 0x30_0000 > 0xffff_ffff_ffff_ffffint);
    while high - low > 1
        invariant
            low < high <= 0x30_0000,
            low * low * low <= n,
            n < high * high * high,
        decreases high - low,
    {
        let mid: u64 = low + (high - low) / 2;
        let m: u128 = mid as u128;
        assert(m * m <= 0x30_0000 * 0x30_0000) by (nonlinear_arith)
            requires
                0 <= m <= 0x30_0000,
        ;
        assert((m * m) * m <= 0x30_0000 * 0x30_0000 * 0x30_0000) by (nonlinear_arith)
            requires
                0 <= m <= 0x30_0000,
                0 <= m * m <= 0x30_0000 * 0x30_0000,
        ;
        if m * m * m <= n as u128 {
            low = mid;
        } else {
            high = mid;
        }
    }
    proof {
        assert(high == low + 1);
        lemma_cube_side(n as nat, low as nat);
    }
    low as u32
}

/// The largest cubic lattice that fits, and why it is the largest.
#[derive(Clone, Copy, Debug, PartialEq, Eq, Structural)]
pub struct LatticeCap {
    pub side: u32,
    /// True when free memory is the binding constraint rather than the
    /// device's storage-buffer binding limit.
    pub limited_by_memory: bool,
}

pub open spec fn clamped(n: nat, low: nat, high: nat) -> nat {
    if n < low {
        low
    } else if n > high {
        high
    } else {
        n
    }
}

/// Cells per side that the binding limit allows.
pub open spec fn side_by_binding(max_storage_binding: u64) -> nat {
    cube_side((max_storage_binding / 16) as nat)
}

/// Cells per side that the memory budget allows.
pub open spec fn side_by_budget(budget_bytes: Option<u64>) -> nat {
    match budget_bytes {
        Some(b) => cube_side((b / 96) as nat),
        None => u32::MAX as nat,
    }
}

pub open spec fn cap_of(max_storage_binding: u64, budget_bytes: Option<u64>) -> LatticeCap {
    let by_binding = side_by_binding(max_storage_binding);
    let by_budget = side_by_budget(budget_bytes);
    let least = if by_budget < by_binding {
        by_budget
    } else {
        by_binding
    };
    LatticeCap {
        side: clamped(least, MIN_GRID as nat, MAX_GRID as nat) as u32,
        limited_by_memory: by_budget < by_binding,
    }
}

/// Why a lattice cannot be had.
#[derive(Clone, Copy, Debug, PartialEq, Eq, Structural)]
pub enum FitError {
    /// The stencil needs at least [`MIN_GRID`] cells along every axis.
    AxisTooSmall { axis: usize, n: u32 },
    /// A fluid buffer of this many cells is past the device's
    /// `max_storage_buffer_binding_size`.
    BindingTooSmall { cells: u128, limit: u64 },
}

/// What is wrong with a lattice, the first short axis before the size.
pub open spec fn fit_fault(grid: [u32; 3], max_storage_binding: u64) -> Option<FitError> {
    if grid[0] < MIN_GRID {
        Some(FitError::AxisTooSmall { axis: 0, n: grid[0] })
    } else if grid[1] < MIN_GRID {
        Some(FitError::AxisTooSmall { axis: 1, n: grid[1] })
    } else if grid[2] < MIN_GRID {
        Some(FitError::AxisTooSmall { axis: 2, n: grid[2] })
    } else if cells(grid) * 16 > max_storage_binding {
        Some(FitError::BindingTooSmall { cells: cells(grid) as u128, limit: max_storage_binding })
    } else {
        None
    }
}

/// Number of cells of a lattice.
fn count_cells(grid: [u32; 3]) -> (r: u128)
    ensures
        r == cells(grid),
        r < 0x1_0000_0000_0000_0000_0000_0000,
{
    let a: u128 = grid[0] as u128;
    let b: u128 = grid[1] as u128;
    let c: u128 = grid[2] as u128;
    assert(a * b <= 0xffff_ffff * 0xffff_ffff) by (nonlinear_arith)
        requires
            0 <= a <= 0xffff_ffff,
            0 <= b <= 0xffff_ffff,
    ;
    assert((a * b) * c <= 0xffff_ffff * 0xffff_ffff * 0xffff_ffff) by (nonlinear_arith)
        requires
            0 <= a * b <= 0xffff_ffff * 0xffff_ffff,
            0 <= c <= 0xffff_ffff,
    ;
    a * b * c
}

/// The largest cap: a lattice of that side fits both limits, unless even the
/// smallest lattice the stencil allows does not.
pub proof fn law_capped_lattice_fits(max_storage_binding: u64, budget_bytes: Option<u64>)
    ensures
        ({
            let side = cap_of(max_storage_binding, budget_bytes).side as nat;
            &&& MIN_GRID <= side <= MAX_GRID
            &&& side > MIN_GRID ==> side * side * side * 16 <= max_storage_binding
            &&& side > MIN_GRID && budget_bytes is Some ==> side * side * side * 96
                <= budget_bytes->0
        }),
{
    let side = cap_of(max_storage_binding, budget_bytes).side as nat;
    let by_binding = side_by_binding(max_storage_binding);
    lemma_side_exists((max_storage_binding / 16) as nat);
    if side > MIN_GRID {
        lemma_cube_order(side, by_binding);
        if budget_bytes is Some {
            lemma_side_exists((budget_bytes->0 / 96) as nat);
            lemma_cube_order(side, side_by_budget(budget_bytes));
        }
    }
}

/// No cap is smaller than it need be: one cell more per side would break a
/// limit, unless the cap is the largest on offer.
pub proof fn law_cap_is_largest(max_storage_binding: u64, budget_bytes: Option<u64>)
    ensures
        ({
            let next = (cap_of(max_storage_binding, budget_bytes).side + 1) as nat;
            ||| next > MAX_GRID
            ||| next * next * next * 16 > max_storage_binding
            ||| budget_bytes is Some && next * next * next * 96 > budget_bytes->0
        }),
{
    let next = (cap_of(max_storage_binding, budget_bytes).side + 1) as nat;
    let by_binding = side_by_binding(max_storage_binding);
    lemma_side_exists((max_storage_binding / 16) as nat);
    if next <= MAX_GRID {
        if next > by_binding {
            lemma_cube_order(by_binding + 1, next);
        } else if budget_bytes is Some {
            lemma_side_exists((budget_bytes->0 / 96) as nat);
            let by_budget = side_by_budget(budget_bytes);
            if next > by_budget {
                lemma_cube_order(by_budget + 1, next);
            }
        }
    }
}

/// Every number has a cube root in whole cells.
pub proof fn lemma_side_exists(n: nat)
    ensures
        is_cube_side(n, cube_side(n)),
    decreases n,
{
    if n == 0 {
        assert(is_cube_side(0, 0)) by (nonlinear_arith);
    } else {
        lemma_side_exists((n - 1) as nat);
        let s = cube_side((n - 1) as nat);
        if n < (s + 1) * (s + 1) * (s + 1) {
            assert(is_cube_side(n, s));
        } else {
            assert((s + 1) * (s + 1) * (s + 1) < (s + 2) * (s + 2) * (s + 2)) by (nonlinear_arith);
            assert(is_cube_side(n, s + 1));
        }
    }
}

/// The side of a cube of a 64-bit number of cells fits 32 bits.
pub proof fn lemma_side_bounded(n: nat)
    requires
        n <= u64::MAX,
    ensures
        cube_side(n) < u32::MAX,
{
    lemma_side_exists(n);
    let s = cube_side(n);
    if s >= 0xffff_ffff {
        lemma_cube_order(0xffff_ffff, s);
        assert(0xffff_ffffnat * 0xffff_ffff * 0xffff_ffff > u64::MAX) by (nonlinear_arith);
    }
}

// ---------------------------------------------------------------------------
//  GPU-side parameter blocks (must mirror the shaders exactly)
// ---------------------------------------------------------------------------

#[derive(Clone, Copy, Debug, PartialEq, Eq, Structural)]
pub struct SimParamsGpu {
    pub nx: u32,
    pub ny: u32,
    pub nz: u32,
    pub pad_u0: u32,
    pub dx: Scalar,
    pub inv_dx: Scalar,
    pub dt: Scalar,
    pub eta: Scalar,
    pub lambda: Scalar,
    pub eps: Scalar,
    pub phi_b: Scalar,
    pub m2: Scalar,
    pub delta: Scalar,
    pub a_rad: Scalar,
    pub wall_width: Scalar,
    pub p_floor: Scalar,
    pub e_floor: Scalar,
    pub z_max: Scalar,
    pub e_ref: Scalar,
    pub t_ref: Scalar,
    pub time: Scalar,
    pub vis_gain: Scalar,
    pub pad0: Scalar,
    pub pad1: Scalar,
}

impl SimParamsGpu {
    /// The block word by word.
    pub open spec fn words_spec(self) -> Seq<u32> {
        seq![
            self.nx,
            self.ny,
            self.nz,
            self.pad_u0,
            self.dx.bits,
            self.inv_dx.bits,
            self.dt.bits,
            self.eta.bits,
            self.lambda.bits,
            self.eps.bits,
            self.phi_b.bits,
            self.m2.bits,
            self.delta.bits,
            self.a_rad.bits,
            self.wall_width.bits,
            self.p_floor.bits,
            self.e_floor.bits,
            self.z_max.bits,
            self.e_ref.bits,
            self.t_ref.bits,
            self.time.bits,
            self.vis_gain.bits,
            self.pad0.bits,
            self.pad1.bits,
        ]
    }

    pub fn words(&self) -> (r: Vec<u32>)
        ensures
            r@ == self.words_spec(),
            4 * r@.len() == BufferId::Params.size_spec(0),
    {
        vec![
            self.nx,
            self.ny,
            self.nz,
            self.pad_u0,
            self.dx.bits,
            self.inv_dx.bits,
            self.dt.bits,
            self.eta.bits,
            self.lambda.bits,
            self.eps.bits,
            self.phi_b.bits,
            self.m2.bits,
            self.delta.bits,
            self.a_rad.bits,
            self.wall_width.bits,
            self.p_floor.bits,
            self.e_floor.bits,
            self.z_max.bits,
            self.e_ref.bits,
            self.t_ref.bits,
            self.time.bits,
            self.vis_gain.bits,
            self.pad0.bits,
            self.pad1.bits,
        ]
    }
}

#[derive(Clone, Copy, Debug, PartialEq, Eq, Structural)]
pub struct StageParamsGpu {
    pub a0: Scalar,
    pub a1: Scalar,
    pub dt_stage: Scalar,
    pub pad: Scalar,
}

impl StageParamsGpu {
    pub open spec fn words_spec(self) -> Seq<u32> {
        seq![self.a0.bits, self.a1.bits, self.dt_stage.bits, self.pad.bits]
    }

    pub fn words(&self) -> (r: Vec<u32>)
        ensures
            r@ == self.words_spec(),
            4 * r@.len() == BufferId::Stage(0).size_spec(0),
    {
        vec![self.a0.bits, self.a1.bits, self.dt_stage.bits, self.pad.bits]
    }
}

#[derive(Clone, Copy, Debug, PartialEq, Eq, Structural)]
pub struct BubbleGpu {
    pub cx: Scalar,
    pub cy: Scalar,
    pub cz: Scalar,
    pub r0: Scalar,
}

impl BubbleGpu {
    pub open spec fn of(event: BubbleEvent) -> BubbleGpu {
        BubbleGpu { cx: event.pos[0], cy: event.pos[1], cz: event.pos[2], r0: event.radius }
    }

    pub open spec fn words_spec(self) -> Seq<u32> {
        seq![self.cx.bits, self.cy.bits, self.cz.bits, self.r0.bits]
    }

    pub fn words(&self) -> (r: Vec<u32>)
        ensures
            r@ == self.words_spec(),
    {
        vec![self.cx.bits, self.cy.bits, self.cz.bits, self.r0.bits]
    }
}

#[derive(Clone, Copy, Debug)]
pub struct DiagnosticsGpu {
    pub sums: [Scalar; 4],
    pub max_v: Scalar,
    pub pad: [u32; 3],
}

impl DiagnosticsGpu {
    /// The block that eight words stand for.
    pub open spec fn of_words_spec(w: [u32; 8]) -> DiagnosticsGpu {
        DiagnosticsGpu {
            sums: [
                Scalar::of_bits(w[0]),
                Scalar::of_bits(w[1]),
                Scalar::of_bits(w[2]),
                Scalar::of_bits(w[3]),
            ],
            max_v: Scalar::of_bits(w[4]),
            pad: [w[5], w[6], w[7]],
        }
    }

    pub fn of_words(w: [u32; 8]) -> (r: DiagnosticsGpu)
        ensures
            r == DiagnosticsGpu::of_words_spec(w),
    {
        DiagnosticsGpu {
            sums: [
                Scalar::of_bits(w[0]),
                Scalar::of_bits(w[1]),
                Scalar::of_bits(w[2]),
                Scalar::of_bits(w[3]),
            ],
            max_v: Scalar::of_bits(w[4]),
            pad: [w[5], w[6], w[7]],
        }
    }
}

/// Weights of the three stages of strong-stability-preserving RK3 (Shu-Osher).
/// Each stage is `U_out = a0 U^n + a1 (U_in + dt L(U_in))`, with `(0, 1)`,
/// `(3/4, 1/4)` and `(1/3, 2/3)`.
pub open spec fn rk3_spec(stage: usize) -> (Scalar, Scalar) {
    if stage == 0 {
        (Scalar::of_bits(ZERO), Scalar::of_bits(ONE))
    } else if stage == 1 {
        (Scalar::of_bits(0x3f40_0000), Scalar::of_bits(QUARTER))
    } else {
        (Scalar::of_bits(0x3eaa_aaab), Scalar::of_bits(0x3f2a_aaab))
    }
}

#[verifier::when_used_as_spec(rk3_spec)]
pub fn rk3(stage: usize) -> (r: (Scalar, Scalar))
    requires
        stage < 3,
    ensures
        r == rk3_spec(stage),
{
    if stage == 0 {
        (Scalar::of_bits(ZERO), Scalar::of_bits(ONE))
    } else if stage == 1 {
        (Scalar::of_bits(0x3f40_0000), Scalar::of_bits(QUARTER))
    } else {
        (Scalar::of_bits(0x3eaa_aaab), Scalar::of_bits(0x3f2a_aaab))
    }
}

/// Each stage is a convex combination up to rounding, which is what makes the
/// scheme strong-stability-preserving: no weight is negative, the second is
/// positive, and they add up to one within a millionth.
pub proof fn law_stages_are_convex(stage: usize)
    requires
        stage < 3,
    ensures
        ({
            let (a0, a1) = rk3(stage);
            let sum = a0.value() + a1.value();
            let one = scalar::one_units();
            &&& a0.is_finite() && a1.is_finite()
            &&& a0.value() >= 0
            &&& a1.value() > 0
            &&& 1_000_000 * (sum - one) < one
            &&& 1_000_000 * (one - sum) < one
        }),
{
    lemma2_to64();
    rounding::lemma_pow2_sum(23, 126);
    rounding::lemma_pow2_sum(23, 125);
    rounding::lemma_pow2_sum(24, 125);
    rounding::lemma_pow2_sum(23, 124);
    rounding::lemma_pow2_sum(25, 124);
    rounding::lemma_pow2_sum(1, 124);
    lemma_pow2_pos(124);
    let p = pow2(124);
    assert(pow2(149) == 0x200_0000 * p);
    assert(pow2(125) == 2 * p);
    scalar::lemma_units_zero(0);
    let (a0, a1) = rk3(stage);
    if stage == 0 {
        assert(scalar::significand(ONE as nat) == 0x80_0000 && scalar::exponent(ONE as nat) == 126);
        assert(a1.value() == 0x200_0000 * p);
    } else if stage == 1 {
        assert(scalar::significand(0x3f40_0000) == 0xc0_0000 && scalar::exponent(0x3f40_0000)
            == 125);
        assert(scalar::significand(QUARTER as nat) == 0x80_0000 && scalar::exponent(QUARTER as nat)
            == 124);
        assert(a0.value() == 0xc0_0000 * pow2(125));
        assert(a1.value() == 0x80_0000 * p);
    } else {
        assert(scalar::significand(0x3eaa_aaab) == 0xaa_aaab && scalar::exponent(0x3eaa_aaab)
            == 124);
        assert(scalar::significand(0x3f2a_aaab) == 0xaa_aaab && scalar::exponent(0x3f2a_aaab)
            == 125);
        assert(a0.value() == 0xaa_aaab * p);
        assert(a1.value() == 0xaa_aaab * pow2(125));
    }
}

// ---------------------------------------------------------------------------
//  Host-visible diagnostics
// ---------------------------------------------------------------------------

#[derive(Clone, Copy, Debug, PartialEq, Eq, Structural)]
pub struct Diagnostics {
    /// Volume-averaged total energy density (field + fluid).  Conserved by the
    /// continuum equations, so its drift measures discretisation error.
    pub mean_energy: Scalar,
    /// Fraction of the box in the broken phase.
    pub broken_fraction: Scalar,
    /// Volume-averaged fluid kinetic energy density `w W^2 v^2`.
    pub mean_kinetic: Scalar,
    /// Volume-averaged fluid energy density `E`.
    pub mean_fluid_energy: Scalar,
    /// Largest fluid three-velocity anywhere in the box.
    pub max_velocity: Scalar,
}

/// Energies below this, `1e-20`, count as none.
pub const NO_ENERGY: u32 = 0x1e3c_e508;

impl Default for Diagnostics {
    fn default() -> (r: Diagnostics)
        ensures
            r == Diagnostics::zero(),
    {
        Diagnostics {
            mean_energy: Scalar::of_bits(ZERO),
            broken_fraction: Scalar::of_bits(ZERO),
            mean_kinetic: Scalar::of_bits(ZERO),
            mean_fluid_energy: Scalar::of_bits(ZERO),
            max_velocity: Scalar::of_bits(ZERO),
        }
    }
}

impl Diagnostics {
    pub open spec fn zero() -> Diagnostics {
        Diagnostics {
            mean_energy: Scalar::of_bits(ZERO),
            broken_fraction: Scalar::of_bits(ZERO),
            mean_kinetic: Scalar::of_bits(ZERO),
            mean_fluid_energy: Scalar::of_bits(ZERO),
            max_velocity: Scalar::of_bits(ZERO),
        }
    }

    pub open spec fn kinetic_fraction_spec(&self) -> Scalar {
        if self.mean_energy.abs().lt(Scalar::of_bits(NO_ENERGY)) {
            Scalar::of_bits(ZERO)
        } else {
            self.mean_kinetic.over(self.mean_energy)
        }
    }

    /// Kinetic energy fraction `K`: the share of the total energy carried by
    /// bulk fluid motion.  This is the quantity that controls gravitational
    /// wave production from a phase transition.
    #[verifier::when_used_as_spec(kinetic_fraction_spec)]
    pub fn kinetic_fraction(&self) -> (r: Scalar)
        ensures
            r == self.kinetic_fraction_spec(),
    {
        if self.mean_energy.abs().lt(Scalar::of_bits(NO_ENERGY)) {
            Scalar::of_bits(ZERO)
        } else {
            self.mean_kinetic.over(self.mean_energy)
        }
    }

    /// Sums over `n` cells turned into averages.
    pub open spec fn averaged(raw: DiagnosticsGpu, n: u64) -> Diagnostics {
        let inv_n = Scalar::of_bits(ONE).over(Scalar::of_integer(n));
        Diagnostics {
            mean_energy: raw.sums[0].times(inv_n),
            broken_fraction: raw.sums[1].times(inv_n),
            mean_kinetic: raw.sums[2].times(inv_n),
            mean_fluid_energy: raw.sums[3].times(inv_n),
            max_velocity: raw.max_v,
        }
    }
}

/// How far the fetch of a diagnostics block has come.
#[derive(Clone, Copy, Debug, PartialEq, Eq, Structural)]
pub enum ReadbackState {
    Idle,
    Pending,
    Ready,
}

// ---------------------------------------------------------------------------
//  Commands
// ---------------------------------------------------------------------------

/// Work for the device.  Writes take effect when they are handed over; the rest
/// is recorded in order and runs when the recording is submitted.
#[derive(Debug)]
pub enum Command {
    /// Fill a buffer from its start.
    Write { buffer: BufferId, words: Vec<u32> },
    /// Run a compute pipeline over `size` workgroups.
    Dispatch { pipeline: PipelineId, params: GroupId, state: GroupId, size: (u32, u32, u32) },
    /// Zero a whole buffer.
    Clear { buffer: BufferId },
    /// Copy the first `bytes` bytes.
    Copy { from: BufferId, to: BufferId, bytes: u64 },
}

/// A command by value.
pub enum CommandView {
    Write { buffer: BufferId, words: Seq<u32> },
    Dispatch { pipeline: PipelineId, params: GroupId, state: GroupId, size: (u32, u32, u32) },
    Clear { buffer: BufferId },
    Copy { from: BufferId, to: BufferId, bytes: u64 },
}

impl View for Command {
    type V = CommandView;

    open spec fn view(&self) -> CommandView {
        match *self {
            Command::Write { buffer, words } => CommandView::Write { buffer, words: words@ },
            Command::Dispatch { pipeline, params, state, size } => CommandView::Dispatch {
                pipeline,
                params,
                state,
                size,
            },
            Command::Clear { buffer } => CommandView::Clear { buffer },
            Command::Copy { from, to, bytes } => CommandView::Copy { from, to, bytes },
        }
    }
}

/// Commands by value.
pub open spec fn views(commands: Seq<Command>) -> Seq<CommandView> {
    commands.map_values(|c: Command| c@)
}

/// Append a command.
fn emit(out: &mut Vec<Command>, command: Command)
    ensures
        views(final(out)@) == views(old(out)@).push(command@),
{
    out.push(command);
    assert(views(out@) =~= views(old(out)@).push(command@));
}

/// The bytes that a write puts into its buffer.
pub fn payload(words: &Vec<u32>) -> (r: Vec<u8>)
    requires
        4 * words@.len() <= usize::MAX,
    ensures
        bytes::holds_words(r@, words@, true) || bytes::holds_words(r@, words@, false),
{
    bytes::bytes_of_words(words)
}

/// Whether a command is one that the device can carry out: every resource it
/// names exists and may be used that way, a write fits its buffer, and a
/// dispatch hands its pipeline bind groups of the layouts it was built for.
pub open spec fn sound(command: CommandView, n: nat) -> bool {
    match command {
        CommandView::Write { buffer, words } => buffer.valid() && buffer.usage().copy_dst && 4
            * words.len() <= buffer.size_spec(n),
        CommandView::Dispatch { pipeline, params, state, size } => params.valid() && state.valid()
            && pipeline.layouts() == (params.layout(), state.layout()),
        CommandView::Clear { buffer } => buffer.valid() && buffer.usage().copy_dst,
        CommandView::Copy { from, to, bytes } => from.valid() && to.valid()
            && from.usage().copy_src && to.usage().copy_dst && bytes <= from.size_spec(n) && bytes
            <= to.size_spec(n),
    }
}

pub open spec fn all_sound(commands: Seq<CommandView>, n: nat) -> bool {
    forall|i: int| 0 <= i < commands.len() ==> sound(#[trigger] commands[i], n)
}

// ---------------------------------------------------------------------------
//  Simulation
// ---------------------------------------------------------------------------

/// Everything needed to construct a [`Simulation`], gathered so the call site
/// reads as named fields rather than nine positional arguments.
#[derive(Clone, Copy, Debug)]
pub struct SimulationSpec {
    pub model: Model,
    pub grid: [u32; 3],
    pub nucleation: NucleationMode,
    pub bubbles: usize,
    pub nucleation_duration: Scalar,
    pub seed: u64,
    pub precision: Precision,
}

/// Why a simulation cannot be built.
#[derive(Debug)]
pub enum SimError {
    Model(String),
    Fit(FitError),
}

/// What the host keeps of a running simulation.
#[derive(Debug)]
pub struct Simulation {
    pub model: Model,
    pub grid: [u32; 3],
    /// The spec this was built from, so a resize can rebuild with one field
    /// changed rather than reassembling the arguments at the call site.
    pub spec: SimulationSpec,
    pub time: Scalar,
    pub steps: u64,
    /// Visualisation gain applied by the `vis` shader; currently unused
    /// headroom for future channel scaling.
    pub vis_gain: Scalar,
    pub n_cells: u64,
    pub schedule: Vec<BubbleEvent>,
    pub next_event: usize,
    /// Set on the frame a nucleation dispatch happens, so the panel can
    /// re-baseline the energy-conservation readout (stamping a bubble injects
    /// energy).
    pub nucleated_this_frame: bool,
    /// Which of the three slots currently holds `U^n`.
    pub cur: usize,
    pub readback: ReadbackState,
    pub diagnostics: Diagnostics,
    pub copy_issued: bool,
}

/// A simulation by value.
pub struct SimulationState {
    pub model: Model,
    pub grid: [u32; 3],
    pub spec: SimulationSpec,
    pub time: Scalar,
    pub steps: nat,
    pub vis_gain: Scalar,
    pub schedule: Seq<BubbleEvent>,
    pub next_event: int,
    pub nucleated_this_frame: bool,
    pub cur: int,
    pub readback: ReadbackState,
    pub diagnostics: Diagnostics,
    pub copy_issued: bool,
}

impl View for Simulation {
    type V = SimulationState;

    open spec fn view(&self) -> SimulationState {
        SimulationState {
            model: self.model,
            grid: self.grid,
            spec: self.spec,
            time: self.time,
            steps: self.steps as nat,
            vis_gain: self.vis_gain,
            schedule: self.schedule@,
            next_event: self.next_event as int,
            nucleated_this_frame: self.nucleated_this_frame,
            cur: self.cur as int,
            readback: self.readback,
            diagnostics: self.diagnostics,
            copy_issued: self.copy_issued,
        }
    }
}

/// Workgroups of a lattice pass: `WG_X` cells at a time along x.
pub open spec fn lattice_dims(grid: [u32; 3]) -> (u32, u32, u32) {
    (((grid[0] + WG_X - 1) / WG_X as int) as u32, grid[1], grid[2])
}

/// `1e-7`, the floors of pressure and energy relative to the reference state.
pub const FLOOR: u32 = 0x33d6_bf95;

/// `0.9999`, the largest momentum ratio the inversion accepts.
pub const Z_MAX: u32 = 0x3f7f_f972;

impl SimulationState {
    /// What every operation keeps.
    pub open spec fn wf(self) -> bool {
        &&& 0 <= self.cur < 3
        &&& 0 <= self.next_event <= self.schedule.len()
        &&& self.grid[0] >= MIN_GRID && self.grid[1] >= MIN_GRID && self.grid[2] >= MIN_GRID
        &&& cells(self.grid) * FLUID_CELL <= u64::MAX
        &&& physics::model_fault(self.model) is None
        &&& physics::model_fault(self.spec.model) is None
        &&& self.copy_issued ==> self.readback == ReadbackState::Idle
    }

    // --- parameters ---------------------------------------------------------

    /// Floors are relative to the reference state, so they scale with the
    /// chosen parameters instead of being magic absolute numbers.
    pub open spec fn params(self) -> SimParamsGpu {
        let m = self.model;
        let floor = Scalar::of_bits(FLOOR).times(m.e_ref());
        SimParamsGpu {
            nx: self.grid[0],
            ny: self.grid[1],
            nz: self.grid[2],
            pad_u0: 0,
            dx: m.dx,
            inv_dx: Scalar::of_bits(ONE).over(m.dx),
            dt: m.dt(),
            eta: m.eta,
            lambda: m.lambda,
            eps: m.eps(),
            phi_b: m.phi_b,
            m2: m.m2(),
            delta: m.delta(),
            a_rad: m.a_rad(),
            wall_width: m.wall_width(),
            p_floor: floor,
            e_floor: floor,
            z_max: Scalar::of_bits(Z_MAX),
            e_ref: m.e_ref(),
            t_ref: m.t_ref(),
            time: self.time,
            vis_gain: self.vis_gain,
            pad0: Scalar::of_bits(ZERO),
            pad1: Scalar::of_bits(ZERO),
        }
    }

    pub open spec fn params_write(self) -> CommandView {
        CommandView::Write { buffer: BufferId::Params, words: self.params().words_spec() }
    }

    pub open spec fn stage_write(self, stage: usize) -> CommandView {
        let (a0, a1) = rk3(stage);
        CommandView::Write {
            buffer: BufferId::Stage(stage),
            words: (StageParamsGpu {
                a0,
                a1,
                dt_stage: self.model.dt(),
                pad: Scalar::of_bits(ZERO),
            }).words_spec(),
        }
    }

    pub open spec fn stage_writes(self) -> Seq<CommandView> {
        seq![self.stage_write(0), self.stage_write(1), self.stage_write(2)]
    }

    /// The state once a model has been set, where it is valid.
    pub open spec fn remodelled(self, model: Model) -> SimulationState {
        if physics::model_fault(model) is None {
            SimulationState { model, ..self }
        } else {
            self
        }
    }

    /// What setting a model has the device do.
    pub open spec fn model_commands(self, model: Model) -> Seq<CommandView> {
        if physics::model_fault(model) is None {
            let t = self.remodelled(model);
            t.stage_writes().push(t.params_write())
        } else {
            Seq::empty()
        }
    }

    // --- passes -------------------------------------------------------------

    pub open spec fn lattice_pass(
        self,
        pipeline: PipelineId,
        params: GroupId,
        state: GroupId,
    ) -> CommandView {
        CommandView::Dispatch { pipeline, params, state, size: lattice_dims(self.grid) }
    }

    /// Primitives of the current state, then the visualisation volume.
    pub open spec fn visualisation(self) -> Seq<CommandView> {
        let cur = self.cur as usize;
        seq![
            self.lattice_pass(PipelineId::Prim, GroupId::Params, GroupId::Prim(cur)),
            self.lattice_pass(PipelineId::Vis, GroupId::Params, GroupId::Vis(cur)),
        ]
    }

    /// Primitive recovery for a stage's input state, then fluxes, sources, and
    /// the RK stage combination.
    pub open spec fn stage_commands(self, stage: usize) -> Seq<CommandView> {
        let cur = self.cur as usize;
        let input = resources::stage_slot(self.cur, stage as int).0 as usize;
        seq![
            self.lattice_pass(PipelineId::Prim, GroupId::Params, GroupId::Prim(input)),
            self.lattice_pass(
                PipelineId::Step,
                GroupId::ParamsStage(stage),
                GroupId::Step { cur, stage },
            ),
        ]
    }

    pub open spec fn step_commands(self) -> Seq<CommandView> {
        self.stage_commands(0) + self.stage_commands(1) + self.stage_commands(2)
    }

    /// The state after one step.  The final stage wrote into the slot after the
    /// current one.
    pub open spec fn stepped(self) -> SimulationState {
        SimulationState {
            cur: (self.cur + 1) % 3,
            time: self.time.plus(self.model.dt()),
            steps: self.steps + 1,
            ..self
        }
    }

    /// The state after `n` steps.
    pub open spec fn advanced(self, n: nat) -> SimulationState
        decreases n,
    {
        if n == 0 {
            self
        } else {
            self.advanced((n - 1) as nat).stepped()
        }
    }

    pub open spec fn advance_commands(self, n: nat) -> Seq<CommandView>
        decreases n,
    {
        if n == 0 {
            Seq::empty()
        } else {
            self.advance_commands((n - 1) as nat) + self.advanced((n - 1) as nat).step_commands()
        }
    }

    // --- nucleation ---------------------------------------------------------

    /// How many bubbles are stamped in now: those at the head of the schedule
    /// whose time has come, at most one batch.
    pub open spec fn due(self) -> nat {
        due_from(self.schedule, self.next_event, self.time, MAX_BUBBLES as nat)
    }

    pub open spec fn nucleation_commands(self) -> Seq<CommandView> {
        let n = self.due();
        if n == 0 {
            Seq::empty()
        } else {
            seq![
                CommandView::Write {
                    buffer: BufferId::Bubbles,
                    words: bubble_words(self.schedule, self.next_event, n),
                },
                CommandView::Write {
                    buffer: BufferId::Batch,
                    words: seq![n as u32, 0u32, 0u32, 0u32],
                },
                self.lattice_pass(
                    PipelineId::Nucleate,
                    GroupId::Params,
                    GroupId::Nucleate(self.cur as usize),
                ),
            ]
        }
    }

    pub open spec fn nucleated(self) -> SimulationState {
        SimulationState {
            next_event: self.next_event + self.due(),
            nucleated_this_frame: self.due() > 0,
            ..self
        }
    }

    /// The state with a bubble queued where three words say.
    pub open spec fn with_bubble(self, words: Map<nat, u32>) -> SimulationState {
        SimulationState {
            schedule: self.schedule.insert(
                self.next_event,
                BubbleEvent {
                    time: self.time,
                    pos: physics::position(words, 0, self.grid),
                    radius: self.model.seed_radius(),
                },
            ),
            ..self
        }
    }

    // --- lifecycle ----------------------------------------------------------

    /// What to build from at another lattice size.
    pub open spec fn spec_at(self, grid: [u32; 3]) -> SimulationSpec {
        SimulationSpec { grid, model: self.model, ..self.spec }
    }

    /// The state after a reset.
    pub open spec fn restarted(self, schedule: Seq<BubbleEvent>) -> SimulationState {
        SimulationState {
            time: Scalar::of_bits(ZERO),
            steps: 0,
            cur: 0,
            next_event: 0,
            schedule,
            ..self
        }
    }

    /// What a freshly restarted simulation has the device do.
    pub open spec fn restart_commands(self) -> Seq<CommandView> {
        seq![self.params_write()] + self.stage_writes() + seq![
            self.lattice_pass(
                PipelineId::Init,
                GroupId::Params,
                GroupId::Init(self.cur as usize),
            ),
        ] + self.visualisation()
    }

    /// A new simulation.
    pub open spec fn created(spec: SimulationSpec, logs: Seq<Scalar>) -> SimulationState {
        SimulationState {
            model: spec.model,
            grid: spec.grid,
            spec,
            time: Scalar::of_bits(ZERO),
            steps: 0,
            vis_gain: Scalar::of_bits(ONE),
            schedule: physics::schedule(
                spec.nucleation,
                spec.bubbles as nat,
                spec.model.seed_radius(),
                spec.grid,
                spec.nucleation_duration,
                logs,
                spec.seed,
            ),
            next_event: 0,
            nucleated_this_frame: false,
            cur: 0,
            readback: ReadbackState::Idle,
            diagnostics: Diagnostics::zero(),
            copy_issued: false,
        }
    }

    pub open spec fn creation_commands(self) -> Seq<CommandView> {
        self.stage_writes() + self.restart_commands()
    }

    // --- diagnostics --------------------------------------------------------

    /// The global reduction and a copy of its result.
    pub open spec fn reduction(self) -> Seq<CommandView> {
        let group = GroupId::Reduce(self.cur as usize);
        seq![
            CommandView::Clear { buffer: BufferId::Diag },
            CommandView::Dispatch {
                pipeline: PipelineId::Reduce1,
                params: GroupId::Params,
                state: group,
                size: (N_PARTIALS, 1, 1),
            },
            CommandView::Dispatch {
                pipeline: PipelineId::Reduce2,
                params: GroupId::Params,
                state: group,
                size: (1, 1, 1),
            },
            CommandView::Copy {
                from: BufferId::Diag,
                to: BufferId::DiagStaging,
                bytes: DIAG_BYTES,
            },
        ]
    }

    /// The state once a fetched block has been taken in.
    pub open spec fn informed(self, words: [u32; 8]) -> SimulationState {
        SimulationState {
            diagnostics: Diagnostics::averaged(
                DiagnosticsGpu::of_words_spec(words),
                cells(self.grid) as u64,
            ),
            readback: ReadbackState::Idle,
            ..self
        }
    }
}

/// How many events from `next` on are due, at most `room`.
pub open spec fn due_from(schedule: Seq<BubbleEvent>, next: int, time: Scalar, room: nat) -> nat
    decreases room,
{
    if room > 0 && next < schedule.len() && schedule[next].time.le(time) {
        1 + due_from(schedule, next + 1, time, (room - 1) as nat)
    } else {
        0
    }
}

/// The blocks of `n` bubbles from `next` on, word by word.
pub open spec fn bubble_words(schedule: Seq<BubbleEvent>, next: int, n: nat) -> Seq<u32>
    decreases n,
{
    if n == 0 {
        Seq::empty()
    } else {
        bubble_words(schedule, next, (n - 1) as nat) + BubbleGpu::of(
            schedule[next + n - 1],
        ).words_spec()
    }
}

impl Simulation {
    /// What every operation keeps.
    pub open spec fn wf(&self) -> bool {
        &&& self@.wf()
        &&& self.n_cells == cells(self.grid)
    }

    /// Build a simulation of `spec` on a device whose storage bindings hold at
    /// most `max_storage_binding` bytes.  `logs` are the logarithms that
    /// [`physics::make_schedule`] asks for.
    pub fn new(
        spec: SimulationSpec,
        max_storage_binding: u64,
        logs: &Vec<Scalar>,
        out: &mut Vec<Command>,
    ) -> (r: Result<Simulation, SimError>)
        requires
            spec.nucleation == NucleationMode::Exponential ==> logs@.len() == spec.bubbles,
        ensures
            match r {
                Ok(sim) => {
                    &&& physics::model_fault(spec.model) is None
                    &&& fit_fault(spec.grid, max_storage_binding) is None
                    &&& sim.wf()
                    &&& sim@ == SimulationState::created(spec, logs@)
                    &&& views(final(out)@) == views(old(out)@) + sim@.creation_commands()
                },
                Err(SimError::Model(why)) => {
                    &&& physics::model_fault(spec.model) == Some(why@)
                    &&& final(out)@ == old(out)@
                },
                Err(SimError::Fit(why)) => {
                    &&& physics::model_fault(spec.model) is None
                    &&& fit_fault(spec.grid, max_storage_binding) == Some(why)
                    &&& final(out)@ == old(out)@
                },
            },
    {
        match spec.model.validate() {
            Ok(()) => {},
            Err(why) => {
                return Err(SimError::Model(why));
            },
        }
        match Simulation::check_fits(spec.grid, max_storage_binding) {
            Ok(()) => {},
            Err(why) => {
                return Err(SimError::Fit(why));
            },
        }
        let n_cells: u128 = count_cells(spec.grid);
        let schedule: Vec<BubbleEvent> = physics::make_schedule(
            spec.nucleation,
            spec.bubbles,
            spec.model.seed_radius(),
            spec.grid,
            spec.nucleation_duration,
            logs,
            spec.seed,
        );
        let mut sim: Simulation = Simulation {
            model: spec.model,
            grid: spec.grid,
            spec,
            time: Scalar::of_bits(ZERO),
            steps: 0,
            vis_gain: Scalar::of_bits(ONE),
            n_cells: n_cells as u64,
            schedule,
            next_event: 0,
            nucleated_this_frame: false,
            cur: 0,
            readback: ReadbackState::Idle,
            diagnostics: Diagnostics::default(),
            copy_issued: false,
        };
        sim.upload_stage_params(out);
        sim.reset(out, None);
        assert(views(out@) =~= views(old(out)@) + sim@.creation_commands());
        Ok(sim)
    }

    /// Whether a lattice can be had on a device whose storage bindings hold at
    /// most `max_storage_binding` bytes.
    pub fn check_fits(grid: [u32; 3], max_storage_binding: u64) -> (r: Result<(), FitError>)
        ensures
            match r {
                Ok(()) => fit_fault(grid, max_storage_binding) is None,
                Err(why) => fit_fault(grid, max_storage_binding) == Some(why),
            },
    {
        if grid[0] < MIN_GRID {
            return Err(FitError::AxisTooSmall { axis: 0, n: grid[0] });
        }
        if grid[1] < MIN_GRID {
            return Err(FitError::AxisTooSmall { axis: 1, n: grid[1] });
        }
        if grid[2] < MIN_GRID {
            return Err(FitError::AxisTooSmall { axis: 2, n: grid[2] });
        }
        let n: u128 = count_cells(grid);
        if n * 16 > max_storage_binding as u128 {
            return Err(FitError::BindingTooSmall { cells: n, limit: max_storage_binding });
        }
        Ok(())
    }

    // -----------------------------------------------------------------------
    //  Parameters
    // -----------------------------------------------------------------------

    fn gpu_params(&self) -> (r: SimParamsGpu)
        ensures
            r == self@.params(),
    {
        let m: &Model = &self.model;
        let e_ref: Scalar = m.e_ref();
        let floor: Scalar = Scalar::of_bits(FLOOR).times(e_ref);
        SimParamsGpu {
            nx: self.grid[0],
            ny: self.grid[1],
            nz: self.grid[2],
            pad_u0: 0,
            dx: m.dx,
            inv_dx: Scalar::of_bits(ONE).over(m.dx),
            dt: m.dt(),
            eta: m.eta,
            lambda: m.lambda,
            eps: m.eps(),
            phi_b: m.phi_b,
            m2: m.m2(),
            delta: m.delta(),
            a_rad: m.a_rad(),
            wall_width: m.wall_width(),
            p_floor: floor,
            e_floor: floor,
            z_max: Scalar::of_bits(Z_MAX),
            e_ref,
            t_ref: m.t_ref(),
            time: self.time,
            vis_gain: self.vis_gain,
            pad0: Scalar::of_bits(ZERO),
            pad1: Scalar::of_bits(ZERO),
        }
    }

    fn upload_params(&self, out: &mut Vec<Command>)
        ensures
            views(final(out)@) == views(old(out)@).push(self@.params_write()),
    {
        emit(
            out,
            Command::Write { buffer: BufferId::Params, words: self.gpu_params().words() },
        );
    }

    fn upload_stage(&self, out: &mut Vec<Command>, stage: usize)
        requires
            stage < 3,
        ensures
            views(final(out)@) == views(old(out)@).push(self@.stage_write(stage)),
    {
        let (a0, a1): (Scalar, Scalar) = rk3(stage);
        let block: StageParamsGpu = StageParamsGpu {
            a0,
            a1,
            dt_stage: self.model.dt(),
            pad: Scalar::of_bits(ZERO),
        };
        emit(out, Command::Write { buffer: BufferId::Stage(stage), words: block.words() });
    }

    fn upload_stage_params(&self, out: &mut Vec<Command>)
        ensures
            views(final(out)@) == views(old(out)@) + self@.stage_writes(),
    {
        self.upload_stage(out, 0);
        self.upload_stage(out, 1);
        self.upload_stage(out, 2);
        assert(views(out@) =~= views(old(out)@) + self@.stage_writes());
    }

    /// Apply a live parameter change from the panel.  Cheap: nothing is
    /// reallocated, the next dispatch simply reads different constants.  A
    /// model that is not valid changes nothing.
    ///
    /// Note that changing the potential mid-run changes the total energy of the
    /// configuration, so the conservation readout will step.
    pub fn set_model(&mut self, out: &mut Vec<Command>, model: Model)
        requires
            old(self).wf(),
        ensures
            final(self).wf(),
            physics::model_fault(model) is Some ==> *final(self) == *old(self) && final(out)@
                == old(out)@,
            physics::model_fault(model) is None ==> {
                &&& final(self)@ == (SimulationState { model, ..old(self)@ })
                &&& views(final(out)@) == views(old(out)@) + final(self)@.stage_writes().push(
                    final(self)@.params_write(),
                )
            },
            final(self)@ == old(self)@.remodelled(model),
            views(final(out)@) == views(old(out)@) + old(self)@.model_commands(model),
    {
        match model.validate() {
            Ok(()) => {},
            Err(_) => {
                assert(views(out@) + Seq::<CommandView>::empty() =~= views(out@));
                return;
            },
        }
        self.model = model;
        self.upload_stage_params(out);
        self.upload_params(out);
        assert(views(out@) =~= views(old(out)@) + self@.stage_writes().push(self@.params_write()));
    }

    /// Workgroups of a lattice pass.
    pub fn dispatch_dims(&self) -> (r: (u32, u32, u32))
        requires
            self.wf(),
        ensures
            r == lattice_dims(self.grid),
    {
        ((self.grid[0] - 1) / WG_X + 1, self.grid[1], self.grid[2])
    }

    pub fn cell_count(&self) -> (r: u64)
        requires
            self.wf(),
        ensures
            r == cells(self.grid),
    {
        self.n_cells
    }

    /// Bubbles that are still to be stamped in.
    pub fn remaining_bubbles(&self) -> (r: usize)
        requires
            self.wf(),
        ensures
            r == self@.schedule.len() - self@.next_event,
    {
        self.schedule.len() - self.next_event
    }

    /// Device memory this simulation actually holds, counted from the
    /// allocations themselves rather than predicted.
    ///
    /// [`Self::lattice_bytes`] is the estimate used *before* allocating; this
    /// is the truth afterwards. The difference is the fixed-size scratch
    /// (reduction partials, diagnostics, the bubble list and the parameter
    /// uniforms), a few tens of kilobytes.
    pub fn device_memory_bytes(&self) -> (r: u64)
        requires
            self.wf(),
            device_bytes(cells(self.grid)) <= u64::MAX,
        ensures
            r == device_bytes(cells(self.grid)),
    {
        let n: u64 = self.n_cells;
        let field: u64 = BufferId::Field(0).size(n);
        let fluid: u64 = BufferId::Fluid(0).size(n);
        let state: u64 = 3 * field + 3 * fluid + BufferId::Prim.size(n);
        let scratch: u64 = BufferId::Partials.size(n) + BufferId::Diag.size(n)
            + BufferId::Bubbles.size(n) + BufferId::Batch.size(n);
        let uniforms: u64 = 3 * BufferId::Stage(0).size(n) + BufferId::Params.size(n);
        state + scratch + uniforms + n * VIS_CELL
    }

    /// Device memory a lattice of the given size will need, in bytes.
    ///
    /// Three RK state slots (`field` 8 B + `fluid` 16 B per cell), the
    /// primitive cache (16 B), and the visualisation texture (`rgba16float`,
    /// 8 B) -- 96 bytes per cell. Everything else (parameter uniforms, the
    /// 1024-entry reduction scratch, the bubble list) is a few tens of
    /// kilobytes and is ignored here.
    pub fn lattice_bytes(grid: [u32; 3]) -> (r: u64)
        requires
            96 * cells(grid) <= u64::MAX,
        ensures
            r == 96 * cells(grid),
    {
        let n: u128 = count_cells(grid);
        let per_cell: u64 = 3 * (FIELD_CELL + FLUID_CELL) + FLUID_CELL + VIS_CELL;
        assert(per_cell == 96);
        n as u64 * per_cell
    }

    /// The largest cubic lattice that fits both the device's binding limit and
    /// a memory budget, and which of the two binds.
    ///
    /// Two independent ceilings apply. `max_storage_buffer_binding_size` caps
    /// the `fluid` buffer at 16 bytes per cell and no amount of free memory
    /// relaxes it; the memory budget caps the total at 96 bytes per cell. Pass
    /// `None` for the budget when the backend cannot report memory, in which
    /// case only the binding limit applies.
    pub fn max_cubic_size(max_storage_binding: u64, budget_bytes: Option<u64>) -> (r: LatticeCap)
        ensures
            r == cap_of(max_storage_binding, budget_bytes),
    {
        let by_binding: u32 = side_of(max_storage_binding / 16);
        let by_budget: u32 = match budget_bytes {
            Some(b) => side_of(b / 96),
            None => u32::MAX,
        };
        let least: u32 = if by_budget < by_binding {
            by_budget
        } else {
            by_binding
        };
        let side: u32 = if least < MIN_GRID {
            MIN_GRID
        } else if least > MAX_GRID {
            MAX_GRID
        } else {
            least
        };
        LatticeCap { side, limited_by_memory: by_budget < by_binding }
    }

    /// Rebuild at a new lattice size, keeping every other parameter: those of
    /// the spec, and the live model.
    ///
    /// The old lattice is released *before* the new one is allocated, so peak
    /// device memory is `max(old, new)` rather than `old + new`. Without that,
    /// shrinking a lattice could fail for want of memory, which would be an
    /// absurd way to run out. The intermediate is a minimum-size simulation,
    /// whose commands go to `interim`.  A rejected size leaves the running
    /// simulation untouched.
    pub fn resize(
        &mut self,
        grid: [u32; 3],
        max_storage_binding: u64,
        logs: &Vec<Scalar>,
        interim: &mut Vec<Command>,
        out: &mut Vec<Command>,
    ) -> (r: Result<(), FitError>)
        requires
            old(self).wf(),
            old(self).spec.nucleation == NucleationMode::Exponential ==> logs@.len() == old(
                self,
            ).spec.bubbles,
        ensures
            final(self).wf(),
            match r {
                Ok(()) => {
                    let spec = SimulationSpec {
                        grid,
                        model: old(self).model,
                        ..old(self).spec
                    };
                    let small = SimulationSpec { grid: [MIN_GRID, MIN_GRID, MIN_GRID], ..spec };
                    &&& fit_fault(grid, max_storage_binding) is None
                    &&& final(self)@ == SimulationState::created(spec, logs@)
                    &&& final(self)@ == SimulationState::created(old(self)@.spec_at(grid), logs@)
                    &&& views(final(interim)@) == views(old(interim)@) + SimulationState::created(
                        small,
                        logs@,
                    ).creation_commands()
                    &&& views(final(out)@) == views(old(out)@) + final(self)@.creation_commands()
                },
                Err(why) => {
                    &&& fit_fault(grid, max_storage_binding) == Some(why)
                    &&& *final(self) == *old(self)
                    &&& final(interim)@ == old(interim)@
                    &&& final(out)@ == old(out)@
                },
            },
    {
        // Validate before releasing anything.
        match Simulation::check_fits(grid, max_storage_binding) {
            Ok(()) => {},
            Err(why) => {
                return Err(why);
            },
        }
        let spec: SimulationSpec = SimulationSpec { grid, model: self.model, ..self.spec };
        let small: SimulationSpec = SimulationSpec {
            grid: [MIN_GRID, MIN_GRID, MIN_GRID],
            ..spec
        };
        proof {
            lemma_smallest_fits(grid, max_storage_binding);
        }
        match Simulation::new(small, max_storage_binding, logs, interim) {
            Ok(sim) => {
                *self = sim;
            },
            Err(_) => {
                assert(false);
            },
        }
        match Simulation::new(spec, max_storage_binding, logs, out) {
            Ok(sim) => {
                *self = sim;
            },
            Err(_) => {
                assert(false);
            },
        }
        Ok(())
    }

    // -----------------------------------------------------------------------
    //  Lifecycle
    // -----------------------------------------------------------------------

    /// Reinitialise to the homogeneous symmetric phase and start the
    /// nucleation schedule over, or start a new one.
    pub fn reset(&mut self, out: &mut Vec<Command>, new_schedule: Option<Vec<BubbleEvent>>)
        requires
            old(self).wf(),
        ensures
            final(self).wf(),
            final(self)@ == old(self)@.restarted(
                match new_schedule {
                    Some(s) => s@,
                    None => old(self)@.schedule,
                },
            ),
            views(final(out)@) == views(old(out)@) + final(self)@.restart_commands(),
    {
        self.time = Scalar::of_bits(ZERO);
        self.steps = 0;
        self.cur = 0;
        self.next_event = 0;
        match new_schedule {
            Some(s) => {
                self.schedule = s;
            },
            None => {},
        }
        self.upload_params(out);
        self.upload_stage_params(out);
        let size: (u32, u32, u32) = self.dispatch_dims();
        emit(
            out,
            Command::Dispatch {
                pipeline: PipelineId::Init,
                params: GroupId::Params,
                state: GroupId::Init(self.cur),
                size,
            },
        );
        self.record_visualisation(out);
        assert(views(out@) =~= views(old(out)@) + self@.restart_commands());
    }

    // -----------------------------------------------------------------------
    //  Time stepping
    // -----------------------------------------------------------------------

    /// Record `n_steps` SSP-RK3 time steps, plus any nucleation events that
    /// have come due.
    pub fn record_steps(&mut self, out: &mut Vec<Command>, n_steps: u32)
        requires
            old(self).wf(),
            old(self).steps + n_steps <= u64::MAX,
        ensures
            final(self).wf(),
            final(self)@ == old(self)@.nucleated().advanced(n_steps as nat),
            views(final(out)@) == views(old(out)@) + seq![old(self)@.params_write()] + old(
                self,
            )@.nucleation_commands() + old(self)@.nucleated().advance_commands(n_steps as nat),
    {
        self.nucleated_this_frame = false;
        self.upload_params(out);
        assert(self@.params() == old(self)@.params());
        self.record_nucleation(out);
        let ghost before = views(out@);
        let ghost start = self@;
        assert(before =~= views(old(out)@) + seq![old(self)@.params_write()] + old(
            self,
        )@.nucleation_commands());
        assert(start == old(self)@.nucleated());
        let mut i: u32 = 0;
        assert(views(out@) =~= before + start.advance_commands(0));
        while i < n_steps
            invariant
                i <= n_steps,
                self.wf(),
                self.steps + (n_steps - i) <= u64::MAX,
                self@ == start.advanced(i as nat),
                views(out@) == before + start.advance_commands(i as nat),
            decreases n_steps - i,
        {
            self.record_step(out);
            i = i + 1;
            assert(views(out@) =~= before + start.advance_commands(i as nat));
        }
    }

    fn record_nucleation(&mut self, out: &mut Vec<Command>)
        requires
            old(self).wf(),
            !old(self).nucleated_this_frame,
        ensures
            final(self).wf(),
            final(self)@ == old(self)@.nucleated(),
            views(final(out)@) == views(old(out)@) + old(self)@.nucleation_commands(),
    {
        let mut words: Vec<u32> = Vec::new();
        let mut count: u32 = 0;
        let ghost first = self@.next_event;
        let ghost due = self@.due();
        while self.next_event < self.schedule.len() && count < MAX_BUBBLES as u32
            && self.schedule[self.next_event].time.le(self.time)
            invariant
                self.wf(),
                !self.nucleated_this_frame,
                count <= MAX_BUBBLES,
                0 <= first,
                self@ == (SimulationState { next_event: first + count, ..old(self)@ }),
                words@ == bubble_words(self@.schedule, first, count as nat),
                words@.len() == 4 * count,
                due == count + due_from(
                    self@.schedule,
                    self@.next_event,
                    self@.time,
                    (MAX_BUBBLES - count) as nat,
                ),
            decreases MAX_BUBBLES - count,
        {
            let e: BubbleEvent = self.schedule[self.next_event];
            let block: BubbleGpu = BubbleGpu {
                cx: e.pos[0],
                cy: e.pos[1],
                cz: e.pos[2],
                r0: e.radius,
            };
            let ghost before = words@;
            words.push(block.cx.bits);
            words.push(block.cy.bits);
            words.push(block.cz.bits);
            words.push(block.r0.bits);
            assert(words@ =~= before + block.words_spec());
            self.next_event = self.next_event + 1;
            count = count + 1;
        }
        if count == 0 {
            assert(views(out@) =~= views(old(out)@) + old(self)@.nucleation_commands());
            return;
        }
        emit(out, Command::Write { buffer: BufferId::Bubbles, words });
        let batch: Vec<u32> = vec![count, 0, 0, 0];
        emit(out, Command::Write { buffer: BufferId::Batch, words: batch });
        let size: (u32, u32, u32) = self.dispatch_dims();
        emit(
            out,
            Command::Dispatch {
                pipeline: PipelineId::Nucleate,
                params: GroupId::Params,
                state: GroupId::Nucleate(self.cur),
                size,
            },
        );
        self.nucleated_this_frame = true;
        assert(batch@ =~= seq![due as u32, 0u32, 0u32, 0u32]);
        assert(views(out@) =~= views(old(out)@) + old(self)@.nucleation_commands());
    }

    fn record_stage(&self, out: &mut Vec<Command>, stage: usize)
        requires
            self.wf(),
            stage < 3,
        ensures
            views(final(out)@) == views(old(out)@) + self@.stage_commands(stage),
    {
        let size: (u32, u32, u32) = self.dispatch_dims();
        let slots: [(usize, usize); 3] = resources::stage_slots(self.cur);
        let (input, _): (usize, usize) = slots[stage];
        emit(
            out,
            Command::Dispatch {
                pipeline: PipelineId::Prim,
                params: GroupId::Params,
                state: GroupId::Prim(input),
                size,
            },
        );
        emit(
            out,
            Command::Dispatch {
                pipeline: PipelineId::Step,
                params: GroupId::ParamsStage(stage),
                state: GroupId::Step { cur: self.cur, stage },
                size,
            },
        );
        assert(views(out@) =~= views(old(out)@) + self@.stage_commands(stage));
    }

    fn record_step(&mut self, out: &mut Vec<Command>)
        requires
            old(self).wf(),
            old(self).steps < u64::MAX,
        ensures
            final(self).wf(),
            final(self)@ == old(self)@.stepped(),
            views(final(out)@) == views(old(out)@) + old(self)@.step_commands(),
    {
        self.record_stage(out, 0);
        self.record_stage(out, 1);
        self.record_stage(out, 2);
        assert(views(out@) =~= views(old(out)@) + self@.step_commands());
        // The final stage wrote into slot (cur + 1) % 3.
        self.cur = (self.cur + 1) % 3;
        self.time = self.time.plus(self.model.dt());
        self.steps = self.steps + 1;
    }

    /// Refresh the primitives and the visualisation texture for the current
    /// state.  Must run after the last step of a frame, before rendering.
    pub fn record_visualisation(&self, out: &mut Vec<Command>)
        requires
            self.wf(),
        ensures
            views(final(out)@) == views(old(out)@) + self@.visualisation(),
    {
        let size: (u32, u32, u32) = self.dispatch_dims();
        emit(
            out,
            Command::Dispatch {
                pipeline: PipelineId::Prim,
                params: GroupId::Params,
                state: GroupId::Prim(self.cur),
                size,
            },
        );
        emit(
            out,
            Command::Dispatch {
                pipeline: PipelineId::Vis,
                params: GroupId::Params,
                state: GroupId::Vis(self.cur),
                size,
            },
        );
        assert(views(out@) =~= views(old(out)@) + self@.visualisation());
    }

    // -----------------------------------------------------------------------
    //  Diagnostics
    // -----------------------------------------------------------------------

    /// Record the global reduction and a copy into the staging buffer, but only
    /// if the previous readback has been consumed.  Assumes
    /// [`Self::record_visualisation`] already refreshed the primitives of this
    /// state.
    pub fn record_diagnostics(&mut self, out: &mut Vec<Command>)
        requires
            old(self).wf(),
        ensures
            final(self).wf(),
            old(self).readback != ReadbackState::Idle ==> *final(self) == *old(self) && final(out)@
                == old(out)@,
            old(self).readback == ReadbackState::Idle ==> {
                &&& final(self)@ == (SimulationState { copy_issued: true, ..old(self)@ })
                &&& views(final(out)@) == views(old(out)@) + old(self)@.reduction()
            },
    {
        if self.readback != ReadbackState::Idle {
            return;
        }
        emit(out, Command::Clear { buffer: BufferId::Diag });
        let group: GroupId = GroupId::Reduce(self.cur);
        emit(
            out,
            Command::Dispatch {
                pipeline: PipelineId::Reduce1,
                params: GroupId::Params,
                state: group,
                size: (N_PARTIALS, 1, 1),
            },
        );
        emit(
            out,
            Command::Dispatch {
                pipeline: PipelineId::Reduce2,
                params: GroupId::Params,
                state: group,
                size: (1, 1, 1),
            },
        );
        emit(
            out,
            Command::Copy {
                from: BufferId::Diag,
                to: BufferId::DiagStaging,
                bytes: DIAG_BYTES,
            },
        );
        self.copy_issued = true;
        assert(views(out@) =~= views(old(out)@) + old(self)@.reduction());
    }

    /// Whether the staging buffer is to be mapped now, which is never asked for
    /// while a map is under way.  Call once, immediately after submitting what [`Self::record_diagnostics`] recorded; when the
    /// map is over, call [`Self::map_completed`].
    pub fn after_submit(&mut self) -> (r: bool)
        requires
            old(self).wf(),
        ensures
            final(self).wf(),
            r == old(self).copy_issued,
            r ==> old(self).readback == ReadbackState::Idle,
            !r ==> *final(self) == *old(self),
            r ==> final(self)@ == (SimulationState {
                copy_issued: false,
                readback: ReadbackState::Pending,
                ..old(self)@
            }),
    {
        if !self.copy_issued {
            return false;
        }
        self.copy_issued = false;
        self.readback = ReadbackState::Pending;
        true
    }

    /// The map of the staging buffer is over.
    pub fn map_completed(&mut self, ok: bool)
        requires
            old(self).wf(),
            old(self).readback == ReadbackState::Pending,
        ensures
            final(self).wf(),
            final(self)@ == (SimulationState {
                readback: if ok {
                    ReadbackState::Ready
                } else {
                    ReadbackState::Idle
                },
                ..old(self)@
            }),
    {
        self.readback = if ok {
            ReadbackState::Ready
        } else {
            ReadbackState::Idle
        };
    }

    /// Consume a completed readback, if one is ready.  Never blocks.  `mapped`
    /// is the staging buffer, which is looked at only when a readback is ready
    /// and may be unmapped afterwards.
    ///
    /// The words come in the byte order of the machine; what is made of them is
    /// [`Self::take_diagnostics`].
    pub fn poll_diagnostics(&mut self, mapped: &Vec<u8>) -> (r: Diagnostics)
        requires
            old(self).wf(),
            old(self).readback == ReadbackState::Ready ==> mapped@.len() >= DIAG_BYTES,
        ensures
            final(self).wf(),
            r == final(self).diagnostics,
            old(self).readback != ReadbackState::Ready ==> *final(self) == *old(self),
            old(self).readback == ReadbackState::Ready ==> exists|words: [u32; 8], little: bool|
                #![trigger bytes::holds_words(mapped@.take(32), words@, little)]
                bytes::holds_words(mapped@.take(32), words@, little) && final(self)@ == old(
                    self,
                )@.informed(words),
    {
        if self.readback == ReadbackState::Ready {
            let mut block: Vec<u8> = Vec::new();
            let mut i: usize = 0;
            while i < 32
                invariant
                    i <= 32 <= mapped@.len(),
                    block@ == mapped@.take(i as int),
                decreases 32 - i,
            {
                block.push(mapped[i]);
                i = i + 1;
                assert(block@ =~= mapped@.take(i as int));
            }
            let words: [u32; 8] = bytes::eight_words(&block);
            self.take_diagnostics(words);
        }
        self.diagnostics
    }

    /// Take in a fetched diagnostics block.
    pub fn take_diagnostics(&mut self, words: [u32; 8])
        requires
            old(self).wf(),
            old(self).readback == ReadbackState::Ready,
        ensures
            final(self).wf(),
            final(self)@ == old(self)@.informed(words),
    {
        let raw: DiagnosticsGpu = DiagnosticsGpu::of_words(words);
        let inv_n: Scalar = Scalar::of_bits(ONE).over(Scalar::of_integer(self.n_cells));
        self.diagnostics = Diagnostics {
            mean_energy: raw.sums[0].times(inv_n),
            broken_fraction: raw.sums[1].times(inv_n),
            mean_kinetic: raw.sums[2].times(inv_n),
            mean_fluid_energy: raw.sums[3].times(inv_n),
            max_velocity: raw.max_v,
        };
        self.readback = ReadbackState::Idle;
    }

    /// Queue an extra bubble at a random position, effective immediately.
    pub fn nucleate_now(&mut self, rng: &mut Pcg64Mcg)
        requires
            old(self).wf(),
        ensures
            final(self).wf(),
            final(self)@ == (SimulationState {
                schedule: old(self)@.schedule.insert(
                    old(self)@.next_event,
                    BubbleEvent {
                        time: old(self).time,
                        pos: physics::position(
                            random::upcoming_words(*old(rng)),
                            0,
                            old(self).grid,
                        ),
                        radius: old(self).model.seed_radius(),
                    },
                ),
                ..old(self)@
            }),
            final(self)@ == old(self)@.with_bubble(random::upcoming_words(*old(rng))),
            forall|i: nat| #[trigger]
                random::upcoming_words(*final(rng))[i] == random::upcoming_words(*old(rng))[i + 3],
    {
        let radius: Scalar = self.model.seed_radius();
        let pos: [Scalar; 3] = physics::draw_position(rng, self.grid);
        let event: BubbleEvent = BubbleEvent { time: self.time, pos, radius };
        self.schedule.insert(self.next_event, event);
    }
}

/// Device memory of a simulation of `n` cells: every buffer but the one staged
/// on the host, and the visualisation texture.
pub open spec fn device_bytes(n: nat) -> nat {
    let field = BufferId::Field(0).size_spec(n);
    let fluid = BufferId::Fluid(0).size_spec(n);
    3 * field + 3 * fluid + BufferId::Prim.size_spec(n) + BufferId::Partials.size_spec(n)
        + BufferId::Diag.size_spec(n) + BufferId::Bubbles.size_spec(n) + BufferId::Batch.size_spec(
        n,
    ) + 3 * BufferId::Stage(0).size_spec(n) + BufferId::Params.size_spec(n) + n * VIS_CELL as nat
}

proof fn lemma_smallest_fits(grid: [u32; 3], max_storage_binding: u64)
    requires
        fit_fault(grid, max_storage_binding) is None,
    ensures
        fit_fault([MIN_GRID, MIN_GRID, MIN_GRID], max_storage_binding) is None,
{
    let (a, b, c) = (grid[0] as nat, grid[1] as nat, grid[2] as nat);
    assert(a * b >= 64) by (nonlinear_arith)
        requires
            a >= 8,
            b >= 8,
    ;
    assert((a * b) * c >= 512) by (nonlinear_arith)
        requires
            a * b >= 64,
            c >= 8,
    ;
    assert(cells([MIN_GRID, MIN_GRID, MIN_GRID]) == 512);
}

// ---------------------------------------------------------------------------
//  What holds of every simulation
// ---------------------------------------------------------------------------

/// The estimate made before allocating is off by the fixed-size scratch alone.
pub proof fn law_prediction_misses_only_the_scratch(n: nat)
    ensures
        device_bytes(n) == 96 * n + 32_960,
{
}

/// The workgroups of a lattice pass cover every cell, and none lies wholly
/// outside the lattice.
pub proof fn law_passes_cover_the_lattice(grid: [u32; 3])
    requires
        grid[0] > 0,
    ensures
        lattice_dims(grid).0 * WG_X >= grid[0],
        (lattice_dims(grid).0 - 1) * WG_X < grid[0],
        lattice_dims(grid).1 == grid[1],
        lattice_dims(grid).2 == grid[2],
{
}

/// Steps only move the clock, the counter and the current slot: the slots are
/// used in turn, and the schedule, the model and everything else stays.
pub proof fn law_steps_rotate_the_slots(s: SimulationState, n: nat)
    requires
        0 <= s.cur < 3,
    ensures
        s.advanced(n) == (SimulationState {
            cur: (s.cur + n) % 3,
            steps: s.steps + n,
            time: s.advanced(n).time,
            ..s
        }),
    decreases n,
{
    if n > 0 {
        law_steps_rotate_the_slots(s, (n - 1) as nat);
        assert(((s.cur + (n - 1)) % 3 + 1) % 3 == (s.cur + n) % 3);
    } else {
        assert((s.cur + 0) % 3 == s.cur);
    }
}

/// Recording steps in portions is recording them at once.
pub proof fn law_steps_add_up(s: SimulationState, a: nat, b: nat)
    ensures
        s.advanced(a).advanced(b) == s.advanced(a + b),
        s.advance_commands(a) + s.advanced(a).advance_commands(b) == s.advance_commands(a + b),
    decreases b,
{
    if b > 0 {
        law_steps_add_up(s, a, (b - 1) as nat);
        assert((a + b - 1) as nat == a + (b - 1) as nat);
        assert(s.advance_commands(a) + s.advanced(a).advance_commands(b) =~= s.advance_commands(a)
            + s.advanced(a).advance_commands((b - 1) as nat) + s.advanced(
            (a + b - 1) as nat,
        ).step_commands());
    } else {
        assert(s.advance_commands(a) + s.advanced(a).advance_commands(0) =~= s.advance_commands(a));
    }
}

/// A reset forgets every step taken and every bubble stamped in.
pub proof fn law_reset_forgets_progress(s: SimulationState, n: nat, schedule: Seq<BubbleEvent>)
    requires
        0 <= s.cur < 3,
    ensures
        s.advanced(n).restarted(schedule) == s.restarted(schedule),
        (SimulationState {
            nucleated_this_frame: s.nucleated_this_frame,
            ..s.nucleated().restarted(schedule)
        }) == s.restarted(schedule),
        s.restarted(schedule).restarted(schedule) == s.restarted(schedule),
{
    law_steps_rotate_the_slots(s, n);
}

proof fn lemma_due(schedule: Seq<BubbleEvent>, next: int, time: Scalar, room: nat)
    requires
        0 <= next <= schedule.len(),
    ensures
        ({
            let n = due_from(schedule, next, time, room);
            &&& n <= room
            &&& next + n <= schedule.len()
            &&& forall|i: int| next <= i < next + n ==> (#[trigger] schedule[i]).time.le(time)
            &&& n < room && next + n < schedule.len() ==> !schedule[next + n].time.le(time)
        }),
    decreases room,
{
    if room > 0 && next < schedule.len() && schedule[next].time.le(time) {
        lemma_due(schedule, next + 1, time, (room - 1) as nat);
    }
}

/// A batch is the longest run of bubbles at the head of the schedule whose time
/// has come, cut at the size of a batch: nothing is stamped in early, and
/// nothing that leads the schedule and fits the batch is left for later.
pub proof fn law_bubbles_come_on_time(s: SimulationState)
    requires
        s.wf(),
    ensures
        s.due() <= MAX_BUBBLES,
        s.next_event + s.due() <= s.schedule.len(),
        forall|i: int|
            s.next_event <= i < s.next_event + s.due() ==> (#[trigger] s.schedule[i]).time.le(
                s.time,
            ),
        s.due() < MAX_BUBBLES && s.next_event + s.due() < s.schedule.len() ==> !s.schedule[
        s.next_event + s.due()].time.le(s.time),
        s.nucleated().wf(),
{
    lemma_due(s.schedule, s.next_event, s.time, MAX_BUBBLES as nat);
}

/// Bubbles are handed over in order, four words each: centre and radius.
pub proof fn law_bubbles_are_handed_over(
    schedule: Seq<BubbleEvent>,
    next: int,
    n: nat,
    i: int,
    j: int,
)
    requires
        0 <= i < n,
        0 <= j < 4,
    ensures
        bubble_words(schedule, next, n).len() == 4 * n,
        bubble_words(schedule, next, n)[4 * i + j] == BubbleGpu::of(
            schedule[next + i],
        ).words_spec()[j],
    decreases n,
{
    lemma_bubble_words_len(schedule, next, n);
    lemma_bubble_words_len(schedule, next, (n - 1) as nat);
    if i < n - 1 {
        law_bubbles_are_handed_over(schedule, next, (n - 1) as nat, i, j);
    }
}

proof fn lemma_bubble_words_len(schedule: Seq<BubbleEvent>, next: int, n: nat)
    ensures
        bubble_words(schedule, next, n).len() == 4 * n,
    decreases n,
{
    if n > 0 {
        lemma_bubble_words_len(schedule, next, (n - 1) as nat);
    }
}

/// A bubble queued now is stamped in by the next recording, before any other.
pub proof fn law_queued_bubble_comes_next(s: SimulationState, event: BubbleEvent)
    requires
        s.wf(),
        event.time == s.time,
        !s.time.is_nan(),
    ensures
        ({
            let queued = SimulationState {
                schedule: s.schedule.insert(s.next_event, event),
                ..s
            };
            &&& queued.wf()
            &&& queued.due() > 0
            &&& queued.schedule[queued.next_event] == event
            &&& queued.nucleated().schedule.len() - queued.nucleated().next_event
                <= s.schedule.len() - s.next_event
        }),
{
    let queued = SimulationState { schedule: s.schedule.insert(s.next_event, event), ..s };
    lemma_due(queued.schedule, queued.next_event, s.time, MAX_BUBBLES as nat);
}

proof fn lemma_sound_concat(a: Seq<CommandView>, b: Seq<CommandView>, n: nat)
    requires
        all_sound(a, n),
        all_sound(b, n),
    ensures
        all_sound(a + b, n),
{
    assert forall|i: int| 0 <= i < (a + b).len() implies sound(#[trigger] (a + b)[i], n) by {
        if i < a.len() {
            assert((a + b)[i] == a[i]);
        } else {
            assert((a + b)[i] == b[i - a.len()]);
        }
    }
}

proof fn lemma_steps_sound(s: SimulationState, n: nat)
    requires
        s.wf(),
    ensures
        all_sound(s.advance_commands(n), cells(s.grid)),
    decreases n,
{
    if n > 0 {
        lemma_steps_sound(s, (n - 1) as nat);
        law_steps_rotate_the_slots(s, (n - 1) as nat);
        let t = s.advanced((n - 1) as nat);
        let m = cells(s.grid);
        assert(all_sound(t.stage_commands(0), m));
        assert(all_sound(t.stage_commands(1), m));
        assert(all_sound(t.stage_commands(2), m));
        lemma_sound_concat(t.stage_commands(0), t.stage_commands(1), m);
        lemma_sound_concat(t.stage_commands(0) + t.stage_commands(1), t.stage_commands(2), m);
        lemma_sound_concat(s.advance_commands((n - 1) as nat), t.step_commands(), m);
    }
}

/// Everything a simulation asks of the device can be carried out: buffers are
/// used as they were made to be, nothing is written past its end, and every
/// pipeline is handed bind groups of its own layouts.
pub proof fn law_commands_are_sound(s: SimulationState, n: nat)
    requires
        s.wf(),
    ensures
        all_sound(s.advance_commands(n), cells(s.grid)),
        all_sound(s.nucleation_commands(), cells(s.grid)),
        all_sound(s.visualisation(), cells(s.grid)),
        all_sound(s.stage_writes(), cells(s.grid)),
        all_sound(s.restart_commands(), cells(s.grid)),
        all_sound(s.creation_commands(), cells(s.grid)),
        all_sound(s.reduction(), cells(s.grid)),
        sound(s.params_write(), cells(s.grid)),
{
    let m = cells(s.grid);
    lemma_steps_sound(s, n);
    law_bubbles_come_on_time(s);
    lemma_bubble_words_len(s.schedule, s.next_event, s.due());
    let first = seq![s.params_write()];
    let init = seq![
        s.lattice_pass(PipelineId::Init, GroupId::Params, GroupId::Init(s.cur as usize)),
    ];
    assert(all_sound(first, m));
    assert(all_sound(s.stage_writes(), m));
    assert(all_sound(init, m));
    assert(all_sound(s.visualisation(), m));
    lemma_sound_concat(first, s.stage_writes(), m);
    lemma_sound_concat(first + s.stage_writes(), init, m);
    lemma_sound_concat(first + s.stage_writes() + init, s.visualisation(), m);
    lemma_sound_concat(s.stage_writes(), s.restart_commands(), m);
}

/// With unit spacing time never runs backwards.
pub proof fn law_time_never_runs_back(s: SimulationState, n: nat)
    requires
        s.wf(),
        s.model.dx == Scalar::of_bits(ONE),
        !s.model.cfl.is_nan(),
        !s.time.is_nan(),
    ensures
        s.time.le(s.advanced(n).time),
        !s.advanced(n).time.is_nan(),
    decreases n,
{
    if n > 0 {
        law_time_never_runs_back(s, (n - 1) as nat);
        law_steps_rotate_the_slots(s, (n - 1) as nat);
        physics::law_time_step_is_stable(s.model);
        scalar::lemma_units_zero(0);
        scalar::lemma_plus_grows(s.advanced((n - 1) as nat).time, s.model.dt());
    }
}

} // verus!
