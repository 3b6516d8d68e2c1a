//! What the device holds and computes once the commands of a simulation are
//! carried out, and what comes back from it.
//!
//! The shaders are not modelled.  Of a stage it is only said that it combines
//! states as `U_out = a0 U^n + a1 (U_in + dt L(U_in))`, and the statements follow
//! a single number through it, on which `L` is a multiplication.

use vstd::arithmetic::power2::*;
use vstd::prelude::*;

use crate::accuracy;
use crate::gpu::resources;
use crate::gpu::resources::{BufferId, GroupId, PipelineId, Resource};
use crate::gpu::sim;
use crate::gpu::sim::{
    CommandView, Diagnostics, ReadbackState, SimulationSpec, SimulationState, Z_MAX,
};
use crate::nucleation;
use crate::physics;
use crate::physics::{BubbleEvent, Model};
use crate::rounding;
use crate::rounding::INFINITE;
use crate::scalar;
use crate::scalar::{Scalar, ONE, QUARTER};
use crate::signed;
use crate::torus;

verus! {

// ---------------------------------------------------------------------------
//  What buffers hold
// ---------------------------------------------------------------------------

/// What a list of commands leaves at the start of a buffer: the words written
/// last, if any.
pub open spec fn written(commands: Seq<CommandView>, buffer: BufferId) -> Option<Seq<u32>>
    decreases commands.len(),
{
    if commands.len() == 0 {
        None
    } else {
        match commands.last() {
            CommandView::Write { buffer: b, words } if b == buffer => Some(words),
            _ => written(commands.drop_last(), buffer),
        }
    }
}

/// What is written last stays.
proof fn lemma_written(commands: Seq<CommandView>, buffer: BufferId, at: int)
    requires
        0 <= at < commands.len(),
        commands[at] is Write,
        commands[at]->Write_buffer == buffer,
        forall|i: int|
            at < i < commands.len() ==> !(#[trigger] commands[i] is Write
                && commands[i]->Write_buffer == buffer),
    ensures
        written(commands, buffer) == Some(commands[at]->Write_words),
    decreases commands.len(),
{
    let n = commands.len() - 1;
    if at < n {
        assert(!(commands[n] is Write && commands[n]->Write_buffer == buffer));
        let front = commands.drop_last();
        assert forall|i: int| at < i < front.len() implies !(#[trigger] front[i] is Write
            && front[i]->Write_buffer == buffer) by {
            assert(front[i] == commands[i]);
        }
        lemma_written(front, buffer, at);
    }
}

/// The number that a word stands for.
pub open spec fn number(word: u32) -> real {
    accuracy::exact(Scalar::of_bits(word))
}

/// A model that is set while a simulation runs reaches the device: the block it
/// reads at the next dispatch is that of the new model, the lattice and the clock,
/// whatever the simulation was built from.  A model that is not valid changes nothing.
pub proof fn law_live_model_reaches_the_device(s: SimulationState, model: Model, stage: usize)
    requires
        stage < 3,
    ensures
        physics::model_fault(model) is Some ==> s.remodelled(model) == s && s.model_commands(
            model,
        ).len() == 0,
        physics::model_fault(model) is None ==> {
            let t = s.remodelled(model);
            let commands = s.model_commands(model);
            let w = written(commands, BufferId::Params)->0;
            &&& t.model == model && t.spec == s.spec && t.grid == s.grid && t.time == s.time
            &&& t.schedule == s.schedule && t.next_event == s.next_event && t.cur == s.cur
            &&& written(commands, BufferId::Params) is Some
            &&& w.len() == 24
            &&& w[0] == s.grid[0] && w[1] == s.grid[1] && w[2] == s.grid[2]
            &&& w[4] == model.dx.bits
            &&& w[6] == model.dt().bits
            &&& w[7] == model.eta.bits
            &&& w[8] == model.lambda.bits
            &&& w[9] == model.eps().bits
            &&& w[10] == model.phi_b.bits
            &&& w[11] == model.m2().bits
            &&& w[12] == model.delta().bits
            &&& w[13] == model.a_rad().bits
            &&& w[14] == model.wall_width().bits
            &&& w[18] == model.e_ref().bits
            &&& w[19] == model.t_ref().bits
            &&& w[20] == s.time.bits
            &&& w[21] == s.vis_gain.bits
            &&& w[3] == 0 && w[22] == 0 && w[23] == 0
            // The next recording hands over the same block.
            &&& t.params_write() == (CommandView::Write { buffer: BufferId::Params, words: w })
            // Every stage has the new time step.
            &&& written(commands, BufferId::Stage(stage)) is Some
            &&& written(commands, BufferId::Stage(stage))->0[2] == model.dt().bits
        },
{
    if physics::model_fault(model) is None {
        let t = s.remodelled(model);
        let commands = s.model_commands(model);
        assert(commands.len() == 4);
        assert(commands[3] == t.params_write());
        assert(commands[0] == t.stage_write(0) && commands[1] == t.stage_write(1) && commands[2]
            == t.stage_write(2));
        lemma_written(commands, BufferId::Params, 3);
        lemma_written(commands, BufferId::Stage(stage), stage as int);
    }
}

/// A bubble that is queued by hand comes next: at the time of the simulation, at the place of
/// the words drawn for it, as large as the live model has it; the others keep their order.
pub proof fn law_queued_bubble_is_of_the_live_model(s: SimulationState, words: Map<nat, u32>)
    requires
        s.wf(),
    ensures
        ({
            let t = s.with_bubble(words);
            let e = t.schedule[s.next_event];
            &&& e.time == s.time
            &&& e.radius == s.model.seed_radius()
            &&& nucleation::lies_at(e.pos[0], words[0], s.grid[0])
            &&& nucleation::lies_at(e.pos[1], words[1], s.grid[1])
            &&& nucleation::lies_at(e.pos[2], words[2], s.grid[2])
            &&& t.schedule.remove(s.next_event) == s.schedule
            &&& t.schedule.len() == s.schedule.len() + 1
            &&& t.next_event == s.next_event && t.model == s.model && t.grid == s.grid
            &&& t.time == s.time && t.steps == s.steps && t.cur == s.cur && t.spec == s.spec
            &&& t.readback == s.readback && t.diagnostics == s.diagnostics
        }),
{
    nucleation::law_draws_take_a_word_for_each_axis(words, 0, s.grid);
    assert(s.with_bubble(words).schedule.remove(s.next_event) =~= s.schedule);
}

/// A rebuild at another size takes over everything but the size: the live model, and how many
/// bubbles come, how and when, from which seed.
pub proof fn law_rebuild_keeps_all_but_the_size(s: SimulationState, grid: [u32; 3])
    ensures
        ({
            let t = s.spec_at(grid);
            &&& t.grid == grid
            &&& t.model == s.model
            &&& t.nucleation == s.spec.nucleation && t.bubbles == s.spec.bubbles
            &&& t.nucleation_duration == s.spec.nucleation_duration && t.seed == s.spec.seed
            &&& t.precision == s.spec.precision
        }),
{
}

/// A batch holds up to a thousand and twenty-four bubbles, and leaves out none that is due at
/// the head of the schedule unless it is full; a lattice pass runs sixty-four cells to a
/// workgroup.
pub proof fn law_batches_and_workgroups_have_their_size(s: SimulationState)
    requires
        s.wf(),
    ensures
        s.due() <= 1024,
        s.due() < 1024 && s.next_event + s.due() < s.schedule.len() ==> !s.schedule[s.next_event
            + s.due()].time.le(s.time),
        sim::lattice_dims(s.grid).0 * 64 >= s.grid[0],
        (sim::lattice_dims(s.grid).0 - 1) * 64 < s.grid[0],
{
    sim::law_bubbles_come_on_time(s);
    sim::law_passes_cover_the_lattice(s.grid);
}

/// Every pass sees the slot it is meant for: its field first, then its fluid, but for stamping
/// in bubbles, which sees the field, the bubbles and how many there are.
pub proof fn law_groups_show_their_slot(k: usize, stage: usize)
    requires
        k < 3,
        stage < 3,
    ensures
        ({
            let field = Resource::Buffer(BufferId::Field(k));
            let fluid = Resource::Buffer(BufferId::Fluid(k));
            let prim = Resource::Buffer(BufferId::Prim);
            let init = GroupId::Init(k).resources_spec();
            let stamp = GroupId::Nucleate(k).resources_spec();
            let cache = GroupId::Prim(k).resources_spec();
            let vis = GroupId::Vis(k).resources_spec();
            let sums = GroupId::Reduce(k).resources_spec();
            let step = GroupId::Step { cur: k, stage }.resources_spec();
            &&& init[0] == field && init[1] == fluid
            &&& stamp[0] == field && stamp[1] == Resource::Buffer(BufferId::Bubbles) && stamp[2]
                == Resource::Buffer(BufferId::Batch)
            &&& cache[0] == field && cache[1] == fluid && cache[2] == prim
            &&& vis[0] == field && vis[1] == fluid && vis[2] == prim && vis[3] == Resource::Volume
            &&& sums[0] == field && sums[1] == fluid && sums[2] == prim
            &&& sums[3] == Resource::Buffer(BufferId::Partials) && sums[4] == Resource::Buffer(
                BufferId::Diag,
            )
            &&& step[0] == field && step[1] == fluid && step[4] == prim
            // What is advanced and what is written are a field and the fluid of the same slot.
            &&& match (step[2], step[3], step[5], step[6]) {
                (
                    Resource::Buffer(BufferId::Field(i)),
                    Resource::Buffer(BufferId::Fluid(j)),
                    Resource::Buffer(BufferId::Field(o)),
                    Resource::Buffer(BufferId::Fluid(p)),
                ) => i == j && o == p && o != k && o != i,
                _ => false,
            }
            &&& GroupId::Params.resources_spec()[0] == Resource::Buffer(BufferId::Params)
            &&& GroupId::ParamsStage(stage).resources_spec()[0] == Resource::Buffer(
                BufferId::Params,
            )
            &&& GroupId::ParamsStage(stage).resources_spec()[1] == Resource::Buffer(
                BufferId::Stage(stage),
            )
        }),
{
    resources::law_stages_never_overwrite_their_input(k as int, stage as int);
}

/// What a simulation was built from, and what is left of its run, makes no
/// difference to the parameters on the device.
pub proof fn law_parameters_are_those_of_the_live_model(a: SimulationState, b: SimulationState)
    requires
        a.model == b.model,
        a.grid == b.grid,
        a.time == b.time,
        a.vis_gain == b.vis_gain,
    ensures
        a.params_write() == b.params_write(),
        a.stage_writes() == b.stage_writes(),
{
}

/// The floors of pressure and energy are a ten-millionth of the reference energy,
/// the largest momentum ratio is just below one, and the inverse spacing is one
/// over the spacing.
pub proof fn law_floors_scale_with_the_reference_state(s: SimulationState)
    requires
        accuracy::positive(s.model.e_ref()),
        1_000_000_000_000 as real * accuracy::exact(s.model.e_ref()) >= 1 as real,
        accuracy::exact(s.model.e_ref()) <= 1_000_000_000_000 as real,
        accuracy::positive(s.model.dx),
        1_000_000_000_000 as real * accuracy::exact(s.model.dx) >= 1 as real,
        accuracy::exact(s.model.dx) <= 1_000_000_000_000 as real,
    ensures
        ({
            let w = s.params_write()->Write_words;
            let e = accuracy::exact(s.model.e_ref());
            let dx = accuracy::exact(s.model.dx);
            &&& w[15] == w[16]
            &&& accuracy::near(10_000_000 as real * number(w[15]), e, 5)
            &&& accuracy::near(10_000 as real * number(w[17]), 9_999 as real, 1)
            &&& accuracy::near(number(w[5]) * dx, 1 as real, 2)
        }),
{
    let one = Scalar::of_bits(ONE);
    let floor = Scalar::of_bits(sim::FLOOR);
    let (e_ref, dx) = (s.model.e_ref(), s.model.dx);
    lemma_device_constants();
    lemma_far();
    accuracy::lemma_positive(e_ref);
    accuracy::lemma_positive(dx);
    accuracy::lemma_positive(floor);
    let (x, e, d) = (accuracy::exact(floor), accuracy::exact(e_ref), accuracy::exact(dx));
    let f = accuracy::far();
    accuracy::lemma_positive_product(x, e);
    accuracy::lemma_order(x, 1 as real, e);
    accuracy::lemma_order(1 as real / 100_000_000 as real, x, e);
    accuracy::lemma_order(1_000_000_000_000 as real * 1_000_000_000 as real, f, x * e);
    accuracy::lemma_times_in_range(floor, e_ref);
    accuracy::lemma_times_near(floor, e_ref);
    let p = floor.times(e_ref);
    let y = accuracy::exact(p);
    let t = 1 as real / 10_000_000 as real;
    accuracy::lemma_near_itself(e);
    accuracy::lemma_near_product(x, t, 1, e, e, 0);
    accuracy::lemma_near_joins(y, x * e, 1, t * e, 2);
    accuracy::lemma_near_itself(10_000_000 as real);
    accuracy::lemma_near_product(10_000_000 as real, 10_000_000 as real, 0, y, t * e, 4);
    assert(10_000_000 as real * (t * e) == e);
    // One over the spacing.
    accuracy::lemma_order(1_000_000_000_000 as real, f, d);
    accuracy::lemma_over_in_range(one, dx);
    accuracy::lemma_over_near(one, dx);
    accuracy::lemma_quotient_back(1 as real, d);
    accuracy::lemma_near_itself(d);
    accuracy::lemma_near_product(accuracy::exact(one.over(dx)), 1 as real / d, 1, d, d, 0);
}

/// The constants that the device is handed, as numbers.
proof fn lemma_device_constants()
    ensures
        accuracy::positive(Scalar::of_bits(sim::FLOOR)),
        accuracy::near(number(sim::FLOOR), 1 as real / 10_000_000 as real, 1),
        100_000_000 as real * number(sim::FLOOR) >= 1 as real,
        number(sim::FLOOR) <= 1 as real,
        accuracy::near(10_000 as real * number(Z_MAX), 9_999 as real, 1),
        number(ONE) == 1 as real,
{
    lemma2_to64();
    accuracy::lemma_step();
    accuracy::lemma_constants();
    accuracy::lemma_constant(ONE, 1, 1);
    let e = accuracy::step();
    rounding::lemma_pow2_sum(24, 23);
    assert(scalar::significand(sim::FLOOR as nat) == 0xd6_bf95 && scalar::exponent(
        sim::FLOOR as nat,
    ) == 102);
    accuracy::lemma_pattern(sim::FLOOR, 47);
    let x = number(sim::FLOOR);
    let t = 1 as real / 10_000_000 as real;
    assert(pow2(47) == 0x8000_0000_0000);
    assert(x * 0x8000_0000_0000 as real == 0xd6_bf95 as real);
    assert(0x80_0000 as real * (e * t) == t) by (nonlinear_arith)
        requires
            0x80_0000 as real * e == 1 as real,
    ;
    lemma_one_step(t);
    assert(scalar::significand(Z_MAX as nat) == 0xff_f972 && scalar::exponent(Z_MAX as nat) == 125);
    accuracy::lemma_pattern(Z_MAX, 24);
    let y = number(Z_MAX);
    assert(y * 0x100_0000 as real == 0xff_f972 as real);
    lemma_one_step(9_999 as real);
    assert(0x80_0000 as real * (e * 9_999 as real) == 9_999 as real) by (nonlinear_arith)
        requires
            0x80_0000 as real * e == 1 as real,
    ;
}

/// What near by one step means.
proof fn lemma_one_step(t: real)
    ensures
        ({
            let e = accuracy::step();
            &&& t * (1 as real - 1int as real * e) == t - e * t
            &&& t * (1 as real + 1int as real * e) == t + e * t
        }),
{
    let e = accuracy::step();
    assert(t * (1 as real - 1int as real * e) == t - e * t && t * (1 as real + 1int as real * e) == t
        + e * t) by (nonlinear_arith);
}

proof fn lemma_far()
    ensures
        accuracy::far() >= 1_000_000_000_000 as real * 1_000_000_000 as real,
{
    lemma2_to64();
    rounding::lemma_pow2_sum(64, 36);
    lemma_pow2_strictly_increases(32, 36);
    let (p, q, f) = (pow2(64), pow2(36), pow2(100));
    assert(f >= 1_000_000_000_000 * 1_000_000_000) by (nonlinear_arith)
        requires
            f == p * q,
            p >= 1_000_000_000_000,
            q >= 1_000_000_000,
    ;
}

// ---------------------------------------------------------------------------
//  The time step
// ---------------------------------------------------------------------------

/// The block that a stage reads.
pub open spec fn stage_block(s: SimulationState, stage: usize) -> Seq<u32> {
    s.stage_write(stage)->Write_words
}

/// Every stage is handed the whole time step, and it is the one in the parameter
/// block and the one by which a step moves the clock.
pub proof fn law_every_stage_takes_the_whole_time_step(s: SimulationState, stage: usize)
    requires
        stage < 3,
    ensures
        s.stage_write(stage) is Write,
        s.stage_write(stage)->Write_buffer == BufferId::Stage(stage),
        s.stage_writes()[stage as int] == s.stage_write(stage),
        s.stage_writes().len() == 3,
        ({
            let w = stage_block(s, stage);
            let dt = Scalar::of_bits(w[2]);
            &&& w.len() == 4
            &&& w[2] == stage_block(s, 0)[2]
            &&& w[2] == s.params_write()->Write_words[6]
            &&& w[3] == 0
            &&& s.stepped().time == s.time.plus(dt)
        }),
{
}

/// The time step is the Courant number times the spacing, up to rounding; with
/// unit spacing it is the Courant number itself.
pub proof fn law_time_step_is_the_courant_number(s: SimulationState, stage: usize)
    requires
        s.wf(),
        stage < 3,
        !s.model.cfl.is_nan(),
        accuracy::positive(s.model.dx),
        s.model.dt().is_finite(),
    ensures
        ({
            let dt = number(stage_block(s, stage)[2]);
            let wanted = accuracy::exact(s.model.cfl) * accuracy::exact(s.model.dx);
            &&& accuracy::within(dt, wanted, accuracy::step() * wanted + accuracy::unit())
            &&& s.model.dx == Scalar::of_bits(ONE) ==> stage_block(s, stage)[2] == s.model.cfl.bits
        }),
{
    lemma_courant(s.model);
    assert(stage_block(s, stage)[2] == s.model.dt().bits);
}

/// The time step of a model.
proof fn lemma_courant(m: Model)
    requires
        physics::model_fault(m) is None,
        !m.cfl.is_nan(),
        accuracy::positive(m.dx),
        m.dt().is_finite(),
    ensures
        ({
            let wanted = accuracy::exact(m.cfl) * accuracy::exact(m.dx);
            &&& accuracy::within(
                accuracy::exact(m.dt()),
                wanted,
                accuracy::step() * wanted + accuracy::unit(),
            )
            &&& m.dx == Scalar::of_bits(ONE) ==> m.dt() == m.cfl
        }),
{
    scalar::lemma_units_zero(0);
    scalar::lemma_units_zero(m.cfl.magnitude());
    accuracy::lemma_finite_product(m.cfl, m.dx);
    assert(m.cfl.bits == m.cfl.magnitude());
    accuracy::lemma_times_within(m.cfl, m.dx);
    scalar::lemma_times_one(m.cfl);
}

/// A step moves the clock by the time step, up to rounding.
pub proof fn law_step_moves_the_clock(s: SimulationState)
    requires
        accuracy::counts(s.time),
        accuracy::counts(s.model.dt()),
        s.stepped().time.is_finite(),
    ensures
        ({
            let wanted = accuracy::exact(s.time) + accuracy::exact(s.model.dt());
            accuracy::within(
                accuracy::exact(s.stepped().time),
                wanted,
                accuracy::step() * wanted,
            )
        }),
        s.stepped().steps == s.steps + 1,
{
    accuracy::lemma_plus_within(s.time, s.model.dt());
}

/// What the lattice holds, for a state that is a single number.
pub struct Lattice {
    /// The number in each of the three slots.
    pub slots: Map<int, real>,
    /// The slot whose primitives are in the cache.
    pub primitives: Option<int>,
    /// The block of each stage.
    pub stages: Map<int, Seq<u32>>,
}

/// What one command makes of the lattice, where the right-hand side `L` multiplies
/// by `rate`.  A stage needs the primitives of the state that it advances.
pub open spec fn carried_out(l: Lattice, command: CommandView, rate: real) -> Option<Lattice> {
    match command {
        CommandView::Write { buffer: BufferId::Stage(k), words } => Some(
            Lattice { stages: l.stages.insert(k as int, words), ..l },
        ),
        CommandView::Dispatch { pipeline: PipelineId::Prim, params, state, size } => {
            match state.resources_spec()[0] {
                Resource::Buffer(BufferId::Field(k)) => Some(
                    Lattice { primitives: Some(k as int), ..l },
                ),
                _ => None,
            }
        },
        CommandView::Dispatch { pipeline: PipelineId::Step, params, state, size } => {
            let r = state.resources_spec();
            match (params.resources_spec()[1], r[0], r[2], r[5]) {
                (
                    Resource::Buffer(BufferId::Stage(k)),
                    Resource::Buffer(BufferId::Field(start)),
                    Resource::Buffer(BufferId::Field(input)),
                    Resource::Buffer(BufferId::Field(output)),
                ) => if l.primitives == Some(input as int) {
                    let w = l.stages[k as int];
                    let (u, v) = (l.slots[start as int], l.slots[input as int]);
                    let next = number(w[0]) * u + number(w[1]) * (v + number(w[2]) * (rate * v));
                    Some(Lattice { slots: l.slots.insert(output as int, next), ..l })
                } else {
                    None
                },
                _ => None,
            }
        },
        _ => Some(l),
    }
}

/// What a list of commands makes of the lattice.
pub open spec fn outcome(l: Lattice, commands: Seq<CommandView>, rate: real) -> Option<Lattice>
    decreases commands.len(),
{
    if commands.len() == 0 {
        Some(l)
    } else {
        match outcome(l, commands.drop_last(), rate) {
            Some(before) => carried_out(before, commands.last(), rate),
            None => None,
        }
    }
}

proof fn lemma_outcome(l: Lattice, a: Seq<CommandView>, b: Seq<CommandView>, rate: real)
    requires
        outcome(l, a, rate) is Some,
    ensures
        outcome(l, a + b, rate) == outcome(outcome(l, a, rate)->0, b, rate),
    decreases b.len(),
{
    if b.len() == 0 {
        assert(a + b =~= a);
    } else {
        lemma_outcome(l, a, b.drop_last(), rate);
        assert((a + b).drop_last() =~= a + b.drop_last());
        assert((a + b).last() == b.last());
    }
}

/// Whether the lattice holds the stage blocks of a simulation.
pub open spec fn holds_blocks(l: Lattice, s: SimulationState) -> bool {
    &&& l.stages[0] == stage_block(s, 0)
    &&& l.stages[1] == stage_block(s, 1)
    &&& l.stages[2] == stage_block(s, 2)
}

/// One stage: primitives of its input, then the combination.
proof fn lemma_stage(l: Lattice, s: SimulationState, stage: usize, rate: real)
    requires
        s.wf(),
        stage < 3,
        holds_blocks(l, s),
    ensures
        ({
            let r = outcome(l, s.stage_commands(stage), rate);
            let w = stage_block(s, stage);
            let (input, output) = resources::stage_slot(s.cur, stage as int);
            let (u, v) = (l.slots[s.cur], l.slots[input]);
            &&& r is Some
            &&& r->0.slots == l.slots.insert(
                output,
                number(w[0]) * u + number(w[1]) * (v + number(w[2]) * (rate * v)),
            )
            &&& r->0.stages == l.stages
        }),
{
    let c = s.stage_commands(stage);
    let (input, output) = resources::stage_slot(s.cur, stage as int);
    let before = Lattice { primitives: Some(input), ..l };
    resources::law_stages_never_overwrite_their_input(s.cur, stage as int);
    lemma_primitives(l, s, input as usize, rate);
    lemma_combination(before, s, stage, rate);
    assert(c[0] == s.lattice_pass(
        PipelineId::Prim,
        GroupId::Params,
        GroupId::Prim(input as usize),
    ));
    assert(c[1] == s.lattice_pass(
        PipelineId::Step,
        GroupId::ParamsStage(stage),
        GroupId::Step { cur: s.cur as usize, stage },
    ));
    lemma_two(l, c, before, rate);
}

/// The pass that refreshes the primitives.
proof fn lemma_primitives(l: Lattice, s: SimulationState, input: usize, rate: real)
    ensures
        carried_out(
            l,
            s.lattice_pass(PipelineId::Prim, GroupId::Params, GroupId::Prim(input)),
            rate,
        ) == Some(Lattice { primitives: Some(input as int), ..l }),
{
    assert(GroupId::Prim(input).resources_spec()[0] == Resource::Buffer(BufferId::Field(input)));
}

/// Two commands, one after the other.
proof fn lemma_two(l: Lattice, c: Seq<CommandView>, between: Lattice, rate: real)
    requires
        c.len() == 2,
        carried_out(l, c[0], rate) == Some(between),
    ensures
        outcome(l, c, rate) == carried_out(between, c[1], rate),
{
    let one = c.drop_last();
    let none = one.drop_last();
    assert(outcome(l, none, rate) == Some(l));
    assert(one.last() == c[0]);
    assert(outcome(l, one, rate) == carried_out(l, c[0], rate));
    assert(c.last() == c[1]);
}

/// The combination at the end of a stage.
proof fn lemma_combination(l: Lattice, s: SimulationState, stage: usize, rate: real)
    requires
        s.wf(),
        stage < 3,
        l.stages[stage as int] == stage_block(s, stage),
        l.primitives == Some(resources::stage_slot(s.cur, stage as int).0),
    ensures
        ({
            let r = carried_out(
                l,
                s.lattice_pass(
                    PipelineId::Step,
                    GroupId::ParamsStage(stage),
                    GroupId::Step { cur: s.cur as usize, stage },
                ),
                rate,
            );
            let w = stage_block(s, stage);
            let (input, output) = resources::stage_slot(s.cur, stage as int);
            let (u, v) = (l.slots[s.cur], l.slots[input]);
            &&& r is Some
            &&& r->0.slots == l.slots.insert(
                output,
                number(w[0]) * u + number(w[1]) * (v + number(w[2]) * (rate * v)),
            )
            &&& r->0.stages == l.stages
        }),
{
    resources::law_stages_never_overwrite_their_input(s.cur, stage as int);
    let group = GroupId::Step { cur: s.cur as usize, stage };
    let (input, output) = resources::stage_slot(s.cur, stage as int);
    let r = group.resources_spec();
    assert(r[0] == Resource::Buffer(BufferId::Field(s.cur as usize)));
    assert(r[2] == Resource::Buffer(BufferId::Field(input as usize)));
    assert(r[5] == Resource::Buffer(BufferId::Field(output as usize)));
    assert(GroupId::ParamsStage(stage).resources_spec()[1] == Resource::Buffer(
        BufferId::Stage(stage),
    ));
}

/// The weights of the stages, as numbers: `(0, 1)`, `(3/4, 1/4)` and
/// `(1/3, 2/3)`, the last two up to rounding.
pub proof fn law_stage_weights(s: SimulationState)
    ensures
        number(stage_block(s, 0)[0]) == 0 as real,
        number(stage_block(s, 0)[1]) == 1 as real,
        4 as real * number(stage_block(s, 1)[0]) == 3 as real,
        4 as real * number(stage_block(s, 1)[1]) == 1 as real,
        accuracy::within(3 as real * number(stage_block(s, 2)[0]), 1 as real, accuracy::step()),
        accuracy::within(3 as real * number(stage_block(s, 2)[1]), 2 as real, accuracy::step()),
{
    lemma2_to64();
    accuracy::lemma_step();
    let e = accuracy::step();
    lemma_zero_word();
    rounding::lemma_pow2_sum(24, 1);
    assert(scalar::significand(ONE as nat) == 0x80_0000 && scalar::exponent(ONE as nat) == 126);
    accuracy::lemma_pattern(ONE, 23);
    assert(scalar::significand(0x3f40_0000) == 0xc0_0000 && scalar::exponent(0x3f40_0000) == 125);
    accuracy::lemma_pattern(0x3f40_0000, 24);
    assert(scalar::significand(QUARTER as nat) == 0x80_0000 && scalar::exponent(QUARTER as nat)
        == 124);
    accuracy::lemma_pattern(QUARTER, 25);
    assert(scalar::significand(0x3eaa_aaab) == 0xaa_aaab && scalar::exponent(0x3eaa_aaab) == 124);
    accuracy::lemma_pattern(0x3eaa_aaab, 25);
    assert(scalar::significand(0x3f2a_aaab) == 0xaa_aaab && scalar::exponent(0x3f2a_aaab) == 125);
    accuracy::lemma_pattern(0x3f2a_aaab, 24);
    assert(pow2(25) == 0x200_0000 && pow2(24) == 0x100_0000 && pow2(23) == 0x80_0000);
    assert(number(0x3f40_0000) * 0x100_0000 as real == 0xc0_0000 as real);
    assert(number(QUARTER) * 0x200_0000 as real == 0x80_0000 as real);
    assert(number(0x3eaa_aaab) * 0x200_0000 as real == 0xaa_aaab as real);
    assert(number(0x3f2a_aaab) * 0x100_0000 as real == 0xaa_aaab as real);
    assert(stage_block(s, 1)[0] == 0x3f40_0000 && stage_block(s, 1)[1] == QUARTER);
}

proof fn lemma_zero_word()
    ensures
        number(0) == 0 as real,
{
    scalar::lemma_units_zero(0);
    lemma_pow2_pos(149);
    let z = scalar::one_units() as real;
    assert(0 as real / z == 0 as real) by (nonlinear_arith)
        requires
            z > 0 as real,
    ;
}

/// `1 + z + z^2 / 2 + z^3 / 6`, the growth over a step to third order.
pub open spec fn third_order(z: real) -> real {
    1 as real + z + (z * z) / 2 as real + (z * z * z) / 6 as real
}

/// A step of a simulation advances the state to third order in the time step: a
/// state on which the right-hand side multiplies by `rate` grows by the Taylor
/// polynomial of the exponential, up to rounding of the weights, and the result is
/// in the slot that becomes current.
pub proof fn law_step_is_of_third_order(l: Lattice, s: SimulationState, rate: real)
    requires
        s.wf(),
        holds_blocks(l, s),
    ensures
        ({
            let r = outcome(l, s.step_commands(), rate);
            let u = l.slots[s.cur];
            let z = rate * accuracy::exact(s.model.dt());
            let b = 1 as real + torus::size(z);
            &&& r is Some
            &&& accuracy::within(
                r->0.slots[s.stepped().cur],
                third_order(z) * u,
                accuracy::step() * ((b * b * b) * torus::size(u)),
            )
            &&& holds_blocks(r->0, s.stepped())
        }),
{
    let (p, q, t) = (s.stage_commands(0), s.stage_commands(1), s.stage_commands(2));
    lemma_stage(l, s, 0, rate);
    let l0 = outcome(l, p, rate)->0;
    lemma_stage(l0, s, 1, rate);
    let l1 = outcome(l0, q, rate)->0;
    lemma_stage(l1, s, 2, rate);
    lemma_outcome(l, p, q, rate);
    lemma_outcome(l, p + q, t, rate);
    let r = outcome(l, s.step_commands(), rate)->0;
    let cur = s.cur;
    assert((cur + 1) % 3 != cur && (cur + 2) % 3 != cur && (cur + 1) % 3 != (cur + 2) % 3);
    law_stage_weights(s);
    law_every_stage_takes_the_whole_time_step(s, 1);
    law_every_stage_takes_the_whole_time_step(s, 2);
    let u = l.slots[cur];
    let dt = accuracy::exact(s.model.dt());
    let z = rate * dt;
    let (w1, w2) = (stage_block(s, 1), stage_block(s, 2));
    let (c0, c1) = (number(w2[0]), number(w2[1]));
    let (u1, u2, u3) = (
        l0.slots[(cur + 1) % 3],
        l1.slots[(cur + 2) % 3],
        r.slots[(cur + 1) % 3],
    );
    lemma_grown(u, rate, dt);
    lemma_grown(u1, rate, dt);
    lemma_grown(u2, rate, dt);
    assert(u1 == (1 as real + z) * u) by (nonlinear_arith)
        requires
            u1 == 0 as real * u + 1 as real * ((1 as real + z) * u),
    ;
    assert(u2 == (3 as real / 4 as real) * u + (1 as real / 4 as real) * ((1 as real + z) * u1));
    assert(u3 == c0 * u + c1 * ((1 as real + z) * u2));
    lemma_polynomial(u, z, u1, u2, u3, c0, c1);
}

/// A state plus the time step times its rate of change.
proof fn lemma_grown(v: real, rate: real, dt: real)
    ensures
        v + dt * (rate * v) == (1 as real + rate * dt) * v,
{
    assert(v + dt * (rate * v) == (1 as real + rate * dt) * v) by (nonlinear_arith);
}

/// Three stages with these weights, as a polynomial.
proof fn lemma_polynomial(u: real, z: real, u1: real, u2: real, u3: real, c0: real, c1: real)
    requires
        u1 == (1 as real + z) * u,
        u2 == (3 as real / 4 as real) * u + (1 as real / 4 as real) * ((1 as real + z) * u1),
        u3 == c0 * u + c1 * ((1 as real + z) * u2),
        accuracy::within(3 as real * c0, 1 as real, accuracy::step()),
        accuracy::within(3 as real * c1, 2 as real, accuracy::step()),
    ensures
        ({
            let b = 1 as real + torus::size(z);
            accuracy::within(
                u3,
                third_order(z) * u,
                accuracy::step() * ((b * b * b) * torus::size(u)),
            )
        }),
{
    let e = accuracy::step();
    accuracy::lemma_step();
    let (x, y) = (z * z, z * z * z);
    // g = (1 + z)(3/4 + (1 + z)^2 / 4)
    let g = 1 as real + 3 as real * z / 2 as real + 3 as real * x / 4 as real + y / 4 as real;
    assert((1 as real + z) * u2 == g * u) by (nonlinear_arith)
        requires
            u1 == (1 as real + z) * u,
            u2 == (3 as real / 4 as real) * u + (1 as real / 4 as real) * ((1 as real + z) * u1),
            x == z * z,
            y == z * z * z,
            g == 1 as real + 3 as real * z / 2 as real + 3 as real * x / 4 as real + y / 4 as real,
    ;
    let (d0, d1) = (c0 - 1 as real / 3 as real, c1 - 2 as real / 3 as real);
    let t = third_order(z);
    assert(t == 1 as real / 3 as real + (2 as real / 3 as real) * g);
    assert(u3 - t * u == d0 * u + d1 * (g * u)) by (nonlinear_arith)
        requires
            u3 == c0 * u + c1 * (g * u),
            t == 1 as real / 3 as real + (2 as real / 3 as real) * g,
            d0 == c0 - 1 as real / 3 as real,
            d1 == c1 - 2 as real / 3 as real,
    ;
    // Sizes.
    let (a, v) = (torus::size(z), torus::size(u));
    let b = 1 as real + a;
    let k = b * b * b;
    signed::lemma_size_product(z, z);
    signed::lemma_size_product(z * z, z);
    signed::lemma_size_product(g, u);
    let (a2, a3) = (a * a, a * a * a);
    assert(k == 1 as real + 3 as real * a + 3 as real * a2 + a3) by (nonlinear_arith)
        requires
            k == b * b * b,
            b == 1 as real + a,
            a2 == a * a,
            a3 == a * a * a,
    ;
    accuracy::lemma_order(0 as real, a, a);
    accuracy::lemma_order(0 as real, a2, a);
    assert(torus::size(g) <= k);
    assert(k >= 1 as real);
    accuracy::lemma_order(torus::size(g), k, v);
    accuracy::lemma_order(1 as real, k, v);
    let h = k * v;
    signed::lemma_size_product(d0, u);
    signed::lemma_size_product(d1, g * u);
    accuracy::lemma_order(torus::size(d0), e / 3 as real, v);
    accuracy::lemma_order(v, h, e / 3 as real);
    accuracy::lemma_order(torus::size(d1), e / 3 as real, torus::size(g * u));
    accuracy::lemma_order(torus::size(g * u), h, e / 3 as real);
    assert((e / 3 as real) * h == (e * h) / 3 as real) by (nonlinear_arith);
    accuracy::lemma_order(0 as real, h, e);
}

/// A simulation that starts over hands the device its parameters and the blocks of
/// all three stages, prepares the current slot, and shows it.
pub proof fn law_restart_hands_over_everything(s: SimulationState, stage: usize)
    requires
        s.wf(),
        stage < 3,
    ensures
        ({
            let c = s.restart_commands();
            let cur = s.cur as usize;
            &&& written(c, BufferId::Params) == Some(s.params_write()->Write_words)
            &&& written(c, BufferId::Stage(stage)) == Some(stage_block(s, stage))
            &&& written(s.creation_commands(), BufferId::Params) == Some(
                s.params_write()->Write_words,
            )
            &&& written(s.creation_commands(), BufferId::Stage(stage)) == Some(
                stage_block(s, stage),
            )
            &&& c.len() == 7
            &&& c[4] == s.lattice_pass(PipelineId::Init, GroupId::Params, GroupId::Init(cur))
            &&& c[5] == s.lattice_pass(PipelineId::Prim, GroupId::Params, GroupId::Prim(cur))
            &&& c[6] == s.lattice_pass(PipelineId::Vis, GroupId::Params, GroupId::Vis(cur))
        }),
{
    let c = s.restart_commands();
    let d = s.creation_commands();
    assert(c.len() == 7 && d.len() == 10);
    assert(c[0] == s.params_write());
    assert(c[1] == s.stage_write(0) && c[2] == s.stage_write(1) && c[3] == s.stage_write(2));
    assert(c[1 + stage as int] == s.stage_write(stage));
    assert(c[4] == s.lattice_pass(PipelineId::Init, GroupId::Params, GroupId::Init(s.cur as usize)));
    assert(c[5] == s.visualisation()[0] && c[6] == s.visualisation()[1]);
    assert forall|i: int| 0 <= i < 7 implies #[trigger] d[i + 3] == c[i] by {}
    lemma_written(c, BufferId::Params, 0);
    lemma_written(c, BufferId::Stage(stage), 1 + stage as int);
    assert(d[3] == c[0] && d[4] == c[1] && d[5] == c[2] && d[6] == c[3] && d[7] == c[4] && d[8]
        == c[5] && d[9] == c[6]);
    assert(d[4 + stage as int] == c[1 + stage as int]);
    lemma_written(d, BufferId::Params, 3);
    lemma_written(d, BufferId::Stage(stage), 4 + stage as int);
}

/// A new simulation, and one that was reset, is at time zero with no step taken, no
/// bubble stamped in, and all else as it was asked for.
pub proof fn law_runs_start_at_zero(
    spec: SimulationSpec,
    logs: Seq<Scalar>,
    s: SimulationState,
    schedule: Seq<BubbleEvent>,
)
    ensures
        ({
            let new = SimulationState::created(spec, logs);
            &&& number(new.time.bits) == 0 as real
            &&& new.steps == 0 && new.next_event == 0 && new.cur == 0
            &&& new.model == spec.model && new.grid == spec.grid && new.spec == spec
            &&& new.schedule.len() == spec.bubbles
            &&& forall|i: int|
                0 <= i < new.schedule.len() ==> (#[trigger] new.schedule[i]).radius
                    == spec.model.seed_radius() && physics::in_box(new.schedule[i].pos, spec.grid)
            &&& number(new.vis_gain.bits) == 1 as real
            &&& new.readback == ReadbackState::Idle && !new.copy_issued
        }),
        ({
            let old = s.restarted(schedule);
            &&& number(old.time.bits) == 0 as real
            &&& old.steps == 0 && old.next_event == 0 && old.cur == 0
            &&& old.schedule == schedule
            &&& old.model == s.model && old.grid == s.grid && old.spec == s.spec
            &&& old.vis_gain == s.vis_gain && old.readback == s.readback
            &&& old.diagnostics == s.diagnostics && old.copy_issued == s.copy_issued
        }),
{
    lemma_zero_word();
    accuracy::lemma_constants();
    accuracy::lemma_constant(ONE, 1, 1);
    physics::law_bubbles_lie_in_the_box(
        spec.nucleation,
        spec.bubbles as nat,
        spec.model.seed_radius(),
        spec.grid,
        spec.nucleation_duration,
        logs,
        spec.seed,
    );
}

/// Every bubble that is due is handed over by its centre and radius, in the order
/// of the schedule, together with how many there are, and stamped into the current
/// slot.
pub proof fn law_due_bubbles_reach_the_device(s: SimulationState, i: int)
    requires
        s.wf(),
        0 <= i < s.due(),
    ensures
        ({
            let c = s.nucleation_commands();
            let w = written(c, BufferId::Bubbles)->0;
            let e = s.schedule[s.next_event + i];
            &&& c.len() == 3
            &&& written(c, BufferId::Bubbles) is Some
            &&& w.len() == 4 * s.due()
            &&& w[4 * i] == e.pos[0].bits
            &&& w[4 * i + 1] == e.pos[1].bits
            &&& w[4 * i + 2] == e.pos[2].bits
            &&& w[4 * i + 3] == e.radius.bits
            &&& written(c, BufferId::Batch) is Some
            &&& written(c, BufferId::Batch)->0[0] == s.due()
            &&& c[2] == (CommandView::Dispatch {
                pipeline: PipelineId::Nucleate,
                params: GroupId::Params,
                state: GroupId::Nucleate(s.cur as usize),
                size: sim::lattice_dims(s.grid),
            })
            &&& s.nucleated().next_event == s.next_event + s.due()
        }),
{
    let c = s.nucleation_commands();
    sim::law_bubbles_come_on_time(s);
    lemma_written(c, BufferId::Bubbles, 0);
    lemma_written(c, BufferId::Batch, 1);
    sim::law_bubbles_are_handed_over(s.schedule, s.next_event, s.due(), i, 0);
    sim::law_bubbles_are_handed_over(s.schedule, s.next_event, s.due(), i, 1);
    sim::law_bubbles_are_handed_over(s.schedule, s.next_event, s.due(), i, 2);
    sim::law_bubbles_are_handed_over(s.schedule, s.next_event, s.due(), i, 3);
}

/// A reduction starts from a cleared block, runs over the current slot in two
/// passes that both see the block, and fetches all of it.
pub proof fn law_reduction_fetches_the_current_state(s: SimulationState)
    requires
        s.wf(),
    ensures
        ({
            let c = s.reduction();
            let r = GroupId::Reduce(s.cur as usize).resources_spec();
            &&& c.len() == 4
            &&& c[0] == (CommandView::Clear { buffer: BufferId::Diag })
            &&& c[1] is Dispatch && c[1]->pipeline == PipelineId::Reduce1
            &&& c[2] is Dispatch && c[2]->pipeline == PipelineId::Reduce2
            &&& c[1]->state == GroupId::Reduce(s.cur as usize) && c[2]->state == c[1]->state
            &&& c[1]->size == (1024u32, 1u32, 1u32) && c[2]->size == (1u32, 1u32, 1u32)
            &&& c[3] == (CommandView::Copy {
                from: BufferId::Diag,
                to: BufferId::DiagStaging,
                bytes: 32,
            })
            &&& r[0] == Resource::Buffer(BufferId::Field(s.cur as usize))
            &&& r[1] == Resource::Buffer(BufferId::Fluid(s.cur as usize))
            &&& r.last() == Resource::Buffer(BufferId::Diag)
        }),
{
}

// ---------------------------------------------------------------------------
//  Averages
// ---------------------------------------------------------------------------

/// A number times one that is between zero and one, up to rounding.
proof fn lemma_times_share(a: Scalar, b: Scalar)
    requires
        a.is_finite(),
        accuracy::counts(b),
        b.bits <= ONE,
    ensures
        a.times(b).is_finite(),
        ({
            let t = accuracy::exact(a) * accuracy::exact(b);
            accuracy::within(
                accuracy::exact(a.times(b)),
                t,
                accuracy::step() * torus::size(t) + accuracy::unit(),
            )
        }),
{
    let c = scalar::signed(false, a.magnitude());
    scalar::lemma_signed(false, a.magnitude());
    scalar::lemma_signed(a.negative(), a.magnitude());
    assert(accuracy::counts(c) && c.bits == a.magnitude());
    accuracy::lemma_counts(b);
    accuracy::lemma_constants();
    if b.bits < ONE {
        scalar::lemma_units_order(b.bits as nat, ONE as nat);
    }
    let (p, q, z) = (
        scalar::units(a.magnitude()),
        scalar::units(b.bits as nat),
        scalar::one_units(),
    );
    assert(p * q <= z * p) by (nonlinear_arith)
        requires
            q <= z,
            p >= 0,
    ;
    let m = rounding::round_magnitude(p * q, z);
    scalar::lemma_round_bounded(p * q, z, a.magnitude());
    scalar::lemma_signed(false, m);
    scalar::lemma_signed(true, m);
    assert(c.times(b) == scalar::signed(false, m) && a.times(b) == scalar::signed(
        a.negative(),
        m,
    )) by {
        reveal(Scalar::times_spec);
    }
    accuracy::lemma_times_within(c, b);
    signed::lemma_opposite(a.negative(), m);
    signed::lemma_opposite(a.negative(), a.magnitude());
    let (x, y) = (accuracy::exact(c), accuracy::exact(b));
    accuracy::lemma_order(0 as real, y, x);
    let s = accuracy::exact(a);
    assert(a == scalar::signed(a.negative(), a.magnitude()));
    assert((-x) * y == -(x * y)) by (nonlinear_arith);
    signed::lemma_zero_size(-(x * y));
}

/// One over a number of cells.
proof fn lemma_inverse(n: u64)
    requires
        n > 0,
    ensures
        ({
            let inv = Scalar::of_bits(ONE).over(Scalar::of_integer(n));
            &&& accuracy::normal(inv)
            &&& inv.bits <= ONE
            &&& accuracy::near(accuracy::exact(inv) * n as real, 1 as real, 5)
        }),
{
    let one = Scalar::of_bits(ONE);
    let x = Scalar::of_integer(n);
    let inv = one.over(x);
    accuracy::lemma_integer_near(n);
    accuracy::lemma_constants();
    accuracy::lemma_constant(ONE, 1, 1);
    assert(accuracy::exact(one) == 1 as real);
    accuracy::lemma_positive(x);
    accuracy::lemma_positive(one);
    let (z, u) = (scalar::one_units(), scalar::units(x.bits as nat));
    assert(z * z <= u * z) by (nonlinear_arith)
        requires
            z <= u,
    ;
    scalar::lemma_over_bounded(one, x, ONE as nat);
    let (d, t) = (accuracy::exact(x), n as real);
    lemma_far();
    accuracy::lemma_near_within(d, t, 1);
    let e = accuracy::step();
    accuracy::lemma_step();
    assert(0x80_0000 as real * (e * t) == t) by (nonlinear_arith)
        requires
            0x80_0000 as real * e == 1 as real,
    ;
    assert(t <= 0x1_0000_0000_0000_0000int as real);
    lemma_far_above_cells();
    accuracy::lemma_order(1 as real, accuracy::far(), d);
    accuracy::lemma_over_in_range(one, x);
    accuracy::lemma_over_near(one, x);
    let y = accuracy::exact(inv);
    accuracy::lemma_near_itself(1 as real);
    accuracy::lemma_near_ratio(1 as real, 1 as real, 0, d, t, 1);
    accuracy::lemma_quotient_back(1 as real, t);
    accuracy::lemma_near_joins(y, 1 as real / d, 1, 1 as real / t, 2);
    accuracy::lemma_near_itself(t);
    accuracy::lemma_near_product(y, 1 as real / t, 4, t, t, 0);
}

proof fn lemma_far_above_cells()
    ensures
        accuracy::far() >= 2 as real * 0x1_0000_0000_0000_0000int as real,
{
    lemma2_to64();
    rounding::lemma_pow2_sum(64, 36);
    lemma_pow2_strictly_increases(1, 36);
    let (p, q, f) = (pow2(64), pow2(36), pow2(100));
    assert(f >= 2 * p) by (nonlinear_arith)
        requires
            f == p * q,
            q >= 2,
    ;
}

/// What an average is: times the number of cells it is the sum, up to rounding.
pub open spec fn averages(mean: Scalar, sum: Scalar, cells: real) -> bool {
    &&& mean.is_finite()
    &&& accuracy::within(
        accuracy::exact(mean) * cells,
        accuracy::exact(sum),
        8 as real * (accuracy::step() * torus::size(accuracy::exact(sum))) + cells
            * accuracy::unit(),
    )
}

proof fn lemma_average(sum: Scalar, n: u64)
    requires
        n > 0,
        sum.is_finite(),
    ensures
        averages(
            sum.times(Scalar::of_bits(ONE).over(Scalar::of_integer(n))),
            sum,
            n as real,
        ),
{
    let inv = Scalar::of_bits(ONE).over(Scalar::of_integer(n));
    lemma_inverse(n);
    lemma_times_share(sum, inv);
    accuracy::lemma_positive(inv);
    accuracy::lemma_step();
    let (x, y, t) = (accuracy::exact(sum), accuracy::exact(inv), n as real);
    let (e, u, w) = (
        accuracy::step(),
        accuracy::unit(),
        accuracy::exact(sum.times(inv)),
    );
    let p = x * y;
    let v = torus::size(x);
    signed::lemma_size_product(x, y);
    let d = e * torus::size(p) + u;
    accuracy::lemma_order(w - p, d, t);
    accuracy::lemma_order(p - w, d, t);
    assert((w - p) * t == w * t - x * (y * t) && (p - w) * t == x * (y * t) - w * t)
        by (nonlinear_arith)
        requires
            p == x * y,
    ;
    assert(d * t == e * (v * (y * t)) + t * u) by (nonlinear_arith)
        requires
            d == e * (v * y) + u,
    ;
    // y t is one up to five steps.
    let k = y * t;
    accuracy::lemma_near_within(k, 1 as real, 5);
    assert(e * 1 as real == e);
    let c = k - 1 as real;
    assert(x * k == x + x * c) by (nonlinear_arith)
        requires
            c == k - 1 as real,
    ;
    signed::lemma_size_product(x, c);
    accuracy::lemma_order(torus::size(c), 5 as real * e, v);
    assert(v * (5 as real * e) == 5 as real * (e * v)) by (nonlinear_arith);
    accuracy::lemma_order(k, 2 as real, v);
    accuracy::lemma_order(v * k, v * 2 as real, e);
    assert(e * (v * 2 as real) == 2 as real * (e * v)) by (nonlinear_arith);
    accuracy::lemma_order(0 as real, v, e);
}

/// The averages that are reported, times the number of cells of the lattice, are
/// the sums that came back, each its own, up to rounding; the largest velocity is
/// taken as it comes.
pub proof fn law_averages_are_over_all_cells(s: SimulationState, words: [u32; 8])
    requires
        s.wf(),
        Scalar::of_bits(words[0]).is_finite(),
        Scalar::of_bits(words[1]).is_finite(),
        Scalar::of_bits(words[2]).is_finite(),
        Scalar::of_bits(words[3]).is_finite(),
    ensures
        ({
            let d = s.informed(words).diagnostics;
            let cells = (s.grid[0] * s.grid[1] * s.grid[2]) as real;
            &&& averages(d.mean_energy, Scalar::of_bits(words[0]), cells)
            &&& averages(d.broken_fraction, Scalar::of_bits(words[1]), cells)
            &&& averages(d.mean_kinetic, Scalar::of_bits(words[2]), cells)
            &&& averages(d.mean_fluid_energy, Scalar::of_bits(words[3]), cells)
            &&& d.max_velocity.bits == words[4]
        }),
{
    let n = sim::cells(s.grid);
    let (a, b, c) = (s.grid[0] as int, s.grid[1] as int, s.grid[2] as int);
    assert(n == a * b * c);
    assert(a * b > 0) by (nonlinear_arith)
        requires
            a > 0,
            b > 0,
    ;
    assert((a * b) * c > 0) by (nonlinear_arith)
        requires
            a * b > 0,
            c > 0,
    ;
    lemma_average(Scalar::of_bits(words[0]), n as u64);
    lemma_average(Scalar::of_bits(words[1]), n as u64);
    lemma_average(Scalar::of_bits(words[2]), n as u64);
    lemma_average(Scalar::of_bits(words[3]), n as u64);
}

/// A box with its axes exchanged has the same averages, and what is known of a
/// simulation besides its diagnostics and the fetch stays.
pub proof fn law_averages_ignore_the_order_of_the_axes(
    s: SimulationState,
    t: SimulationState,
    words: [u32; 8],
)
    requires
        s.wf(),
        t.grid == [s.grid[1], s.grid[0], s.grid[2]] || t.grid == [
            s.grid[0],
            s.grid[2],
            s.grid[1],
        ] || t.grid == [s.grid[2], s.grid[1], s.grid[0]],
    ensures
        s.informed(words).diagnostics == t.informed(words).diagnostics,
        s.informed(words).readback == ReadbackState::Idle,
        s.informed(words).time == s.time,
        s.informed(words).schedule == s.schedule,
        s.informed(words).next_event == s.next_event,
        s.informed(words).cur == s.cur,
        s.informed(words).model == s.model,
        s.informed(words).grid == s.grid,
{
    let (a, b, c) = (s.grid[0] as int, s.grid[1] as int, s.grid[2] as int);
    assert(a * b * c == b * a * c && a * b * c == a * c * b && a * b * c == c * b * a)
        by (nonlinear_arith);
    assert(sim::cells(s.grid) == sim::cells(t.grid));
}

/// The share of the energy in motion is the kinetic energy over the total, where
/// there is energy at all.
pub proof fn law_kinetic_fraction_is_a_share(d: Diagnostics)
    requires
        accuracy::positive(d.mean_energy),
        accuracy::counts(d.mean_kinetic),
        d.kinetic_fraction().is_finite(),
        10_000_000_000 as real * (10_000_000_000 as real * accuracy::exact(d.mean_energy))
            >= 2 as real,
    ensures
        ({
            let (k, e) = (accuracy::exact(d.mean_kinetic), accuracy::exact(d.mean_energy));
            accuracy::within(
                accuracy::exact(d.kinetic_fraction()),
                k / e,
                accuracy::step() * (k / e) + accuracy::unit(),
            )
        }),
{
    let none = Scalar::of_bits(sim::NO_ENERGY);
    accuracy::lemma_positive(d.mean_energy);
    scalar::lemma_signed(false, d.mean_energy.magnitude());
    assert(d.mean_energy.abs() == d.mean_energy);
    lemma2_to64();
    lemma_no_energy();
    accuracy::lemma_exact_order(d.mean_energy, none);
    accuracy::lemma_over_within(d.mean_kinetic, d.mean_energy);
}

/// Where there is next to no energy, no share of it is in motion.
pub proof fn law_no_energy_has_no_share_in_motion(d: Diagnostics)
    requires
        d.mean_energy.is_finite(),
        10_000_000_000 as real * (10_000_000_000 as real * torus::size(
            accuracy::exact(d.mean_energy),
        )) <= 99 as real / 100 as real,
    ensures
        accuracy::exact(d.kinetic_fraction()) == 0 as real,
{
    lemma_no_energy();
    lemma_zero_word();
    signed::lemma_finite(d.mean_energy);
    accuracy::lemma_exact_order(d.mean_energy.abs(), Scalar::of_bits(sim::NO_ENERGY));
}

/// What counts as no energy is below `2 10^-20`.
proof fn lemma_no_energy()
    ensures
        10_000_000_000 as real * (10_000_000_000 as real * number(sim::NO_ENERGY)) > 99 as real
            / 100 as real,
        10_000_000_000 as real * (10_000_000_000 as real * number(sim::NO_ENERGY)) < 2 as real,
        accuracy::positive(Scalar::of_bits(sim::NO_ENERGY)),
{
    lemma2_to64();
    let bits = sim::NO_ENERGY;
    assert(scalar::significand(bits as nat) == 0xbc_e508 && scalar::exponent(bits as nat) == 59);
    accuracy::lemma_pattern(bits, 90);
    rounding::lemma_pow2_sum(64, 26);
    rounding::lemma_pow2_sum(24, 2);
    let (p, x) = (pow2(90), number(bits));
    assert(p == 0x1_0000_0000_0000_0000 * 0x400_0000);
    let k = p as real;
    assert(x * k == 0xbc_e508 as real);
    assert(k == 1237940039285380274899124224int as real);
}

} // verus!
