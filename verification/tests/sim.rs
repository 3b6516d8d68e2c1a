use bubble_simulation::gpu::preprocess::Precision;
use bubble_simulation::gpu::resources::{
    stage_slots, Binding, BufferId, GroupId, LayoutId, PipelineId, Resource,
};
use bubble_simulation::gpu::sim::{
    payload, rk3, BubbleGpu, Command, Diagnostics, DiagnosticsGpu, FitError, ReadbackState,
    SimError, SimParamsGpu, Simulation, SimulationSpec, StageParamsGpu, MAX_GRID, MIN_GRID,
};
use bubble_simulation::physics::{BubbleEvent, Model, NucleationMode};
use bubble_simulation::scalar::Scalar;
use rand::{Rng, SeedableRng};
use rand_pcg::Pcg64Mcg;

fn s(x: f32) -> Scalar {
    Scalar::of_bits(x.to_bits())
}

fn f(x: Scalar) -> f32 {
    f32::from_bits(x.bits)
}

fn spec(grid: [u32; 3]) -> SimulationSpec {
    SimulationSpec {
        model: Model::default(),
        grid,
        nucleation: NucleationMode::Simultaneous,
        bubbles: 1,
        nucleation_duration: s(10.0),
        seed: 1,
        precision: Precision::Single,
    }
}

const LIMIT: u64 = 2_147_483_648;

fn build(grid: [u32; 3]) -> (Simulation, Vec<Command>) {
    let mut out: Vec<Command> = Vec::new();
    let sim = Simulation::new(spec(grid), LIMIT, &vec![], &mut out).unwrap();
    (sim, out)
}

/// What a list of commands does, in short.
fn outline(commands: &[Command]) -> Vec<String> {
    commands
        .iter()
        .map(|c| match c {
            Command::Write { buffer, words } => format!("write {} {}", buffer.label(), words.len()),
            Command::Dispatch { pipeline, params, state, size } => {
                format!("{} {:?} {:?} {:?}", pipeline.label(), params, state, size)
            }
            Command::Clear { buffer } => format!("clear {}", buffer.label()),
            Command::Copy { from, to, bytes } => {
                format!("copy {} {} {bytes}", from.label(), to.label())
            }
        })
        .collect()
}

#[test]
fn stage_slots_never_alias_output_with_input() {
    for cur in 0..3 {
        let slots = stage_slots(cur);
        for (stage, (in_slot, out_slot)) in slots.iter().enumerate() {
            assert_ne!(in_slot, out_slot, "stage {stage} of cur {cur} writes its input");
            assert_ne!(cur, *out_slot, "stage {stage} of cur {cur} overwrites U^n");
        }
        // The final stage must land in the slot that becomes the new `cur`.
        assert_eq!(slots[2].1, (cur + 1) % 3);
    }
}

#[test]
fn parameter_blocks_have_the_expected_size() {
    // Must match the WGSL struct layouts (std140-style uniform rules: all
    // members here are 4-byte scalars, so the layout is dense).
    assert_eq!(std::mem::size_of::<SimParamsGpu>(), 96);
    assert_eq!(std::mem::size_of::<StageParamsGpu>(), 16);
    assert_eq!(std::mem::size_of::<BubbleGpu>(), 16);
    assert_eq!(std::mem::size_of::<DiagnosticsGpu>() as u64, BufferId::Diag.size(0));
}

#[test]
fn lattice_bytes_is_96_per_cell() {
    assert_eq!(Simulation::lattice_bytes([100, 10, 10]), 10_000 * 96);
}

#[test]
fn cap_reports_which_limit_binds() {
    // 2 GB binding limit, plenty of memory -> the binding limit binds.
    let plenty = Simulation::max_cubic_size(2_147_483_648, Some(1 << 60));
    assert!(!plenty.limited_by_memory);
    assert_eq!(plenty.side, ((2_147_483_648u64 / 16) as f64).cbrt().floor() as u32);

    // Same device, 1 GB of memory -> memory binds.
    let tight = Simulation::max_cubic_size(2_147_483_648, Some(1_000_000_000));
    assert!(tight.limited_by_memory);
    assert!(tight.side < plenty.side);
    assert!(Simulation::lattice_bytes([tight.side; 3]) <= 1_000_000_000);

    // No memory report -> only the binding limit applies.
    assert_eq!(Simulation::max_cubic_size(2_147_483_648, None).side, plenty.side);
}

#[test]
fn cap_never_goes_below_the_stencil_minimum() {
    let cap = Simulation::max_cubic_size(1024, Some(1024));
    assert_eq!(cap.side, MIN_GRID);
}

#[test]
fn rk3_coefficients_are_consistent() {
    // Each stage is a convex combination, which is what makes SSP-RK3
    // strong-stability-preserving.
    for stage in 0..3 {
        let (a0, a1) = rk3(stage);
        let (a0, a1) = (f(a0), f(a1));
        assert!((a0 + a1 - 1.0).abs() < 1e-6);
        assert!(a0 >= 0.0 && a1 > 0.0);
    }
    assert_eq!(rk3(0), (s(0.0), s(1.0)));
    assert_eq!(rk3(1), (s(0.75), s(0.25)));
    assert_eq!(rk3(2), (s(1.0 / 3.0), s(2.0 / 3.0)));
}

#[test]
fn cap_is_an_exact_cube_root() {
    for n in [9u64, 64, 100, 511, 512, 2047] {
        let exact = n * n * n * 16;
        assert_eq!(Simulation::max_cubic_size(exact, None).side, n as u32);
        assert_eq!(Simulation::max_cubic_size(exact - 1, None).side, (n as u32 - 1).max(MIN_GRID));
        let memory = n * n * n * 96;
        assert_eq!(Simulation::max_cubic_size(u64::MAX, Some(memory)).side, n as u32);
    }
    assert_eq!(Simulation::max_cubic_size(u64::MAX, None).side, MAX_GRID);
    assert!(Simulation::max_cubic_size(u64::MAX, Some(u64::MAX)).limited_by_memory);
}

#[test]
fn unfit_lattices_are_named() {
    let fits = Simulation::check_fits;
    assert_eq!(fits([7, 3, 8], LIMIT), Err(FitError::AxisTooSmall { axis: 0, n: 7 }));
    assert_eq!(fits([8, 3, 4], LIMIT), Err(FitError::AxisTooSmall { axis: 1, n: 3 }));
    assert_eq!(fits([8, 8, 0], LIMIT), Err(FitError::AxisTooSmall { axis: 2, n: 0 }));
    assert_eq!(fits([512, 512, 512], LIMIT), Ok(()));
    assert_eq!(
        fits([512, 512, 513], LIMIT),
        Err(FitError::BindingTooSmall { cells: 134_479_872, limit: LIMIT })
    );
    assert!(fits([u32::MAX, u32::MAX, u32::MAX], u64::MAX).is_err());
    let mut out: Vec<Command> = Vec::new();
    let bad = SimulationSpec { model: Model { cfl: s(0.7), ..Model::default() }, ..spec([4; 3]) };
    match Simulation::new(bad, LIMIT, &vec![], &mut out) {
        Err(SimError::Model(why)) => assert!(why.starts_with("cfl must lie")),
        _ => panic!("an invalid model is refused first"),
    }
    assert!(matches!(
        Simulation::new(spec([4; 3]), LIMIT, &vec![], &mut out),
        Err(SimError::Fit(FitError::AxisTooSmall { axis: 0, n: 4 }))
    ));
    assert!(out.is_empty());
}

#[test]
fn a_new_simulation_starts_at_rest() {
    let (sim, out) = build([64, 48, 32]);
    assert_eq!(sim.cell_count(), 64 * 48 * 32);
    assert_eq!(sim.dispatch_dims(), (1, 48, 32));
    assert_eq!(sim.remaining_bubbles(), 1);
    assert_eq!(f(sim.time), 0.0);
    assert_eq!(
        outline(&out),
        vec![
            "write rk stage 0 4",
            "write rk stage 1 4",
            "write rk stage 2 4",
            "write sim params 24",
            "write rk stage 0 4",
            "write rk stage 1 4",
            "write rk stage 2 4",
            "init Params Init(0) (1, 48, 32)",
            "primitives Params Prim(0) (1, 48, 32)",
            "vis Params Vis(0) (1, 48, 32)",
        ]
    );
}

#[test]
fn parameters_reach_the_device() {
    let (_, out) = build([64, 48, 32]);
    let m = Model::default();
    let words = out
        .iter()
        .find_map(|c| match c {
            Command::Write { buffer: BufferId::Params, words } => Some(words.clone()),
            _ => None,
        })
        .unwrap();
    let e_ref = f(m.e_ref());
    let expected: Vec<u32> = vec![
        64,
        48,
        32,
        0,
        1.0f32.to_bits(),
        1.0f32.to_bits(),
        0.2f32.to_bits(),
        0.3f32.to_bits(),
        0.5f32.to_bits(),
        m.eps().bits,
        1.0f32.to_bits(),
        m.m2().bits,
        m.delta().bits,
        m.a_rad().bits,
        m.wall_width().bits,
        (1e-7 * e_ref).to_bits(),
        (1e-7 * e_ref).to_bits(),
        0.9999f32.to_bits(),
        e_ref.to_bits(),
        1.0f32.to_bits(),
        0.0f32.to_bits(),
        1.0f32.to_bits(),
        0,
        0,
    ];
    assert_eq!(words, expected);
    let stages: Vec<Vec<u32>> = out
        .iter()
        .filter_map(|c| match c {
            Command::Write { buffer: BufferId::Stage(_), words } => Some(words.clone()),
            _ => None,
        })
        .take(3)
        .collect();
    assert_eq!(stages[2][0], (1.0f32 / 3.0).to_bits());
    assert_eq!(stages[1], vec![0.75f32.to_bits(), 0.25f32.to_bits(), 0.2f32.to_bits(), 0]);
}

#[test]
fn steps_rotate_the_slots() {
    let (mut sim, _) = build([130, 16, 16]);
    let mut out: Vec<Command> = Vec::new();
    sim.record_steps(&mut out, 2);
    assert!(sim.nucleated_this_frame);
    assert_eq!(sim.remaining_bubbles(), 0);
    assert_eq!((sim.cur, sim.steps), (2, 2));
    assert_eq!(f(sim.time), 0.2f32 + 0.2);
    assert_eq!(
        outline(&out),
        vec![
            "write sim params 24",
            "write bubbles 4",
            "write nucleation batch 4",
            "nucleate Params Nucleate(0) (3, 16, 16)",
            "primitives Params Prim(0) (3, 16, 16)",
            "step ParamsStage(0) Step { cur: 0, stage: 0 } (3, 16, 16)",
            "primitives Params Prim(1) (3, 16, 16)",
            "step ParamsStage(1) Step { cur: 0, stage: 1 } (3, 16, 16)",
            "primitives Params Prim(2) (3, 16, 16)",
            "step ParamsStage(2) Step { cur: 0, stage: 2 } (3, 16, 16)",
            "primitives Params Prim(1) (3, 16, 16)",
            "step ParamsStage(0) Step { cur: 1, stage: 0 } (3, 16, 16)",
            "primitives Params Prim(2) (3, 16, 16)",
            "step ParamsStage(1) Step { cur: 1, stage: 1 } (3, 16, 16)",
            "primitives Params Prim(0) (3, 16, 16)",
            "step ParamsStage(2) Step { cur: 1, stage: 2 } (3, 16, 16)",
        ]
    );
    let mut out: Vec<Command> = Vec::new();
    sim.record_steps(&mut out, 1);
    assert!(!sim.nucleated_this_frame);
    assert_eq!((sim.cur, sim.steps), (0, 3));
}

#[test]
fn bubbles_come_when_they_are_due() {
    let (mut sim, _) = build([64, 64, 64]);
    let event = |t: f32, x: f32| BubbleEvent {
        time: s(t),
        pos: [s(x), s(x + 1.0), s(x + 2.0)],
        radius: s(x + 3.0),
    };
    let mut out: Vec<Command> = Vec::new();
    sim.reset(&mut out, Some(vec![event(0.0, 1.0), event(0.0, 5.0), event(0.3, 9.0)]));
    assert_eq!(sim.remaining_bubbles(), 3);
    let mut out: Vec<Command> = Vec::new();
    sim.record_steps(&mut out, 1);
    let written: Vec<Vec<u32>> = out
        .iter()
        .filter_map(|c| match c {
            Command::Write { buffer: BufferId::Bubbles | BufferId::Batch, words } => {
                Some(words.clone())
            }
            _ => None,
        })
        .collect();
    let expected: Vec<u32> =
        [1.0f32, 2.0, 3.0, 4.0, 5.0, 6.0, 7.0, 8.0].iter().map(|x| x.to_bits()).collect();
    assert_eq!(written[0], expected);
    assert_eq!(written[1], vec![2, 0, 0, 0]);
    assert_eq!(sim.remaining_bubbles(), 1);
    // At 0.2 the third is not due; at 0.4 it is.
    let mut out: Vec<Command> = Vec::new();
    sim.record_steps(&mut out, 1);
    assert!(!sim.nucleated_this_frame);
    sim.record_steps(&mut out, 1);
    assert!(sim.nucleated_this_frame);
    assert_eq!(sim.remaining_bubbles(), 0);
}

#[test]
fn a_batch_holds_a_bounded_number() {
    let (mut sim, _) = build([64, 64, 64]);
    let events: Vec<BubbleEvent> = (0..1500)
        .map(|k| BubbleEvent { time: s(0.0), pos: [s(k as f32), s(0.0), s(0.0)], radius: s(1.0) })
        .collect();
    let mut out: Vec<Command> = Vec::new();
    sim.reset(&mut out, Some(events));
    sim.record_steps(&mut out, 0);
    assert_eq!(sim.remaining_bubbles(), 476);
    sim.record_steps(&mut out, 0);
    assert_eq!(sim.remaining_bubbles(), 0);
    let counts: Vec<u32> = out
        .iter()
        .filter_map(|c| match c {
            Command::Write { buffer: BufferId::Batch, words } => Some(words[0]),
            _ => None,
        })
        .collect();
    assert_eq!(counts, vec![1024, 476]);
}

#[test]
fn a_reset_forgets_progress() {
    let (mut sim, _) = build([64, 64, 64]);
    let mut out: Vec<Command> = Vec::new();
    sim.record_steps(&mut out, 5);
    sim.reset(&mut out, None);
    assert_eq!((sim.cur, sim.steps, f(sim.time), sim.remaining_bubbles()), (0, 0, 0.0, 1));
}

#[test]
fn an_invalid_model_changes_nothing() {
    let (mut sim, _) = build([64, 64, 64]);
    let mut out: Vec<Command> = Vec::new();
    sim.set_model(&mut out, Model { lambda: s(-1.0), ..Model::default() });
    assert!(out.is_empty());
    assert!(sim.model.same(&Model::default()));
    let stiffer = Model { lambda: s(1.0), ..Model::default() };
    sim.set_model(&mut out, stiffer);
    assert!(sim.model.same(&stiffer));
    assert_eq!(
        outline(&out),
        vec!["write rk stage 0 4", "write rk stage 1 4", "write rk stage 2 4", "write sim params 24"]
    );
}

#[test]
fn a_rejected_resize_changes_nothing() {
    let (mut sim, _) = build([64, 64, 64]);
    let (mut interim, mut out): (Vec<Command>, Vec<Command>) = (Vec::new(), Vec::new());
    assert!(sim.resize([4; 3], LIMIT, &vec![], &mut interim, &mut out).is_err());
    let too_big = Simulation::max_cubic_size(LIMIT, None).side + 64;
    assert!(sim.resize([too_big; 3], LIMIT, &vec![], &mut interim, &mut out).is_err());
    assert_eq!(sim.grid, [64; 3]);
    assert!(interim.is_empty() && out.is_empty());
}

#[test]
fn a_resize_keeps_a_live_parameter_change() {
    let (mut sim, _) = build([64, 64, 64]);
    let (mut interim, mut out): (Vec<Command>, Vec<Command>) = (Vec::new(), Vec::new());
    let stiffer = Model { lambda: s(1.0), ..Model::default() };
    assert!(!stiffer.same(&sim.model));
    sim.set_model(&mut out, stiffer);
    sim.resize([96, 96, 96], LIMIT, &vec![], &mut interim, &mut out).unwrap();
    assert_eq!(sim.grid, [96; 3]);
    assert_eq!(sim.model, stiffer);
    assert_eq!(sim.spec.model, stiffer);
    sim.resize([32, 32, 32], LIMIT, &vec![], &mut interim, &mut out).unwrap();
    assert_eq!(sim.model, stiffer);
}

#[test]
fn a_resize_rebuilds_at_the_new_size() {
    let (mut sim, _) = build([64, 64, 64]);
    let (mut interim, mut out): (Vec<Command>, Vec<Command>) = (Vec::new(), Vec::new());
    sim.record_steps(&mut out, 3);
    out.clear();
    sim.resize([48, 32, 72], LIMIT, &vec![], &mut interim, &mut out).unwrap();
    assert_eq!(sim.grid, [48, 32, 72]);
    assert_eq!(sim.cell_count(), 48 * 32 * 72);
    assert_eq!(f(sim.time), 0.0, "a resize restarts the run");
    assert_eq!(sim.steps, 0);
    assert!(outline(&interim).contains(&"init Params Init(0) (1, 8, 8)".to_string()));
    assert!(outline(&out).contains(&"init Params Init(0) (1, 32, 72)".to_string()));
}

#[test]
fn the_prediction_misses_only_the_scratch() {
    for grid in [[64u32; 3], [128, 64, 96], [192; 3]] {
        let (sim, _) = build(grid);
        let predicted = Simulation::lattice_bytes(grid);
        let actual = sim.device_memory_bytes();
        assert_eq!(actual - predicted, 32_960);
        assert!((actual - predicted) as f64 / (predicted as f64) < 0.01);
        // Counted buffer by buffer.
        let counted: u64 = BufferId::all()
            .iter()
            .filter(|b| **b != BufferId::DiagStaging)
            .map(|b| b.size(sim.cell_count()))
            .sum();
        assert_eq!(actual, counted + 8 * sim.cell_count());
    }
}

#[test]
fn one_readback_is_under_way_at_a_time() {
    let (mut sim, _) = build([64, 64, 64]);
    let mut out: Vec<Command> = Vec::new();
    assert!(!sim.after_submit());
    sim.record_diagnostics(&mut out);
    assert_eq!(
        outline(&out),
        vec![
            "clear diagnostics",
            "reduce pass 1 Params Reduce(0) (1024, 1, 1)",
            "reduce pass 2 Params Reduce(0) (1, 1, 1)",
            "copy diagnostics diagnostics staging 32",
        ]
    );
    assert!(sim.after_submit());
    assert_eq!(sim.readback, ReadbackState::Pending);
    out.clear();
    sim.record_diagnostics(&mut out);
    assert!(out.is_empty());
    assert!(!sim.after_submit());
    // Nothing is looked at before the map is over.
    assert_eq!(sim.poll_diagnostics(&vec![]), Diagnostics::default());
    sim.map_completed(true);
    let words: [u32; 8] = [
        512.0f32.to_bits(),
        64.0f32.to_bits(),
        2.0f32.to_bits(),
        256.0f32.to_bits(),
        0.25f32.to_bits(),
        7,
        7,
        7,
    ];
    let mut mapped: Vec<u8> = words.iter().flat_map(|w| w.to_ne_bytes()).collect();
    mapped.extend([9u8; 5]);
    let d = sim.poll_diagnostics(&mapped);
    let inv_n = 1.0 / (64.0f32 * 64.0 * 64.0);
    assert_eq!(f(d.mean_energy), 512.0 * inv_n);
    assert_eq!(f(d.broken_fraction), 64.0 * inv_n);
    assert_eq!(f(d.mean_kinetic), 2.0 * inv_n);
    assert_eq!(f(d.mean_fluid_energy), 256.0 * inv_n);
    assert_eq!(f(d.max_velocity), 0.25);
    assert_eq!(f(d.kinetic_fraction()), 2.0 / 512.0);
    assert_eq!(sim.readback, ReadbackState::Idle);
    // The last numbers stay until others come.
    assert_eq!(sim.poll_diagnostics(&vec![]), d);
    // A failed map is forgotten.
    sim.record_diagnostics(&mut out);
    assert!(sim.after_submit());
    sim.map_completed(false);
    assert_eq!(sim.readback, ReadbackState::Idle);
}

#[test]
fn no_energy_has_no_kinetic_share() {
    let mut d = Diagnostics::default();
    d.mean_kinetic = s(1.0);
    assert_eq!(f(d.kinetic_fraction()), 0.0);
    d.mean_energy = s(-1e-21);
    assert_eq!(f(d.kinetic_fraction()), 0.0);
    d.mean_energy = s(4.0);
    assert_eq!(f(d.kinetic_fraction()), 0.25);
}

#[test]
fn a_queued_bubble_comes_next() {
    let (mut sim, _) = build([64, 32, 16]);
    let mut out: Vec<Command> = Vec::new();
    sim.record_steps(&mut out, 4);
    let mut rng = Pcg64Mcg::seed_from_u64(11);
    let mut twin = Pcg64Mcg::seed_from_u64(11);
    sim.nucleate_now(&mut rng);
    assert_eq!(sim.remaining_bubbles(), 1);
    out.clear();
    sim.record_steps(&mut out, 1);
    let words = out
        .iter()
        .find_map(|c| match c {
            Command::Write { buffer: BufferId::Bubbles, words } => Some(words.clone()),
            _ => None,
        })
        .unwrap();
    for (axis, n) in [64.0f32, 32.0, 16.0].iter().enumerate() {
        assert_eq!(f32::from_bits(words[axis]), twin.random::<f32>() * n);
    }
    assert_eq!(words[3], Model::default().seed_radius().bits);
    assert_eq!(rng.random::<u32>(), twin.random::<u32>());
}

#[test]
fn words_are_written_as_they_lie_in_memory() {
    let words = vec![1u32, 0x0102_0304, 0xffff_fffe];
    let expected: Vec<u8> = words.iter().flat_map(|w| w.to_ne_bytes()).collect();
    assert_eq!(payload(&words), expected);
    assert!(payload(&vec![]).is_empty());
}

#[test]
fn groups_fit_their_layouts() {
    let groups = GroupId::all();
    assert_eq!(groups.len(), 28);
    for (i, g) in groups.iter().enumerate() {
        assert_eq!(g.index(), i);
        let bindings = g.layout().bindings();
        let resources = g.resources();
        assert_eq!(bindings.len(), resources.len());
        for (b, r) in bindings.iter().zip(&resources) {
            match (b, r) {
                (Binding::Uniform, Resource::Buffer(x)) => assert!(x.usage().uniform),
                (Binding::Storage { .. }, Resource::Buffer(x)) => assert!(x.usage().storage),
                (Binding::StorageTexture, Resource::Volume) => {}
                other => panic!("{other:?}"),
            }
        }
        for (j, b) in bindings.iter().enumerate() {
            if matches!(b, Binding::Storage { read_only: false }) {
                let twice = resources.iter().filter(|r| **r == resources[j]).count();
                assert_eq!(twice, 1, "{g:?} writes what it reads");
            }
        }
    }
}

#[test]
fn lists_agree_with_their_indices() {
    for (i, b) in BufferId::all().iter().enumerate() {
        assert_eq!(b.index(), i);
    }
    for (i, l) in LayoutId::all().iter().enumerate() {
        assert_eq!(l.index(), i);
    }
    for (i, p) in PipelineId::all().iter().enumerate() {
        assert_eq!(p.index(), i);
    }
    assert_eq!(PipelineId::Reduce2.module(), "reduce");
    assert_eq!(PipelineId::Reduce2.entry_point(), "reduce_pass2");
    assert_eq!(PipelineId::Step.entry_point(), "main");
    assert_eq!(PipelineId::Step.layouts(), (LayoutId::ParamsStage, LayoutId::Step));
}
