use bubble_simulation::gpu::render::{FieldMode, RenderSettings};
use bubble_simulation::gpu::sim::{Diagnostics, Simulation, MIN_GRID};
use bubble_simulation::gpu::vram::{self, VramInfo};
use bubble_simulation::physics::{Model, NucleationMode, SeedSize};
use bubble_simulation::scalar::Scalar;
use bubble_simulation::ui::{
    apply_selection, choose_cutaway, choose_field, clamp_axis, duration_matters, energy_drift,
    in_critical_radii, lattice_budget, lattice_cap, mode_label, next_baseline, per_step,
    rezero_baseline, run_label, seed_warnings, selection, settle_lattice, shown_colormap,
    step_label, switch_seed, transport, wall_is_thin, DriftLevel, MemoryWarning, SeedFate, SimInfo,
    TransportClicks, UiCommands, UiState,
};

fn s(x: f32) -> Scalar {
    Scalar::of_bits(x.to_bits())
}

fn f(x: Scalar) -> f32 {
    f32::from_bits(x.bits)
}

fn sim_info() -> SimInfo {
    SimInfo {
        grid: [192; 3],
        time: s(12.5),
        steps: 100,
        cells: 192 * 192 * 192,
        bubbles_remaining: 3,
        device_bytes: 680_000_000,
        vram: Some(VramInfo {
            capacity: 25_769_803_776,
            budget: Some(24_000_000_000),
            used: Some(2_000_000_000),
        }),
        max_storage_binding: 2_147_483_648,
    }
}

/// A non-cubic grid must not leave the cubic editor enabled, or the panel
/// rewrites the selection to `[n; 3]` on the next frame and shows a pending
/// change the user never asked for.
#[test]
fn selecting_a_non_cubic_grid_clears_the_cubic_toggle() {
    let mut state = UiState::default();
    state.select_lattice([256, 128, 128]);
    assert_eq!(state.lattice, [256, 128, 128]);
    assert!(!state.lattice_cubic);

    state.select_lattice([192; 3]);
    assert!(state.lattice_cubic);
}

/// The part of the timing line that is about steps.
fn step_text(state: &UiState) -> String {
    match per_step(state) {
        Some(ms) => format!("{:.2} {}", f(ms), step_label(state)),
        None => step_label(state).to_string(),
    }
}

/// Dividing by the step count must not blow up if it is somehow zero.
#[test]
fn per_step_timing_tolerates_a_zero_step_count() {
    let state =
        UiState { frame_ms: s(8.0), steps_per_frame: 0, running: true, ..UiState::default() };
    let text = step_text(&state);
    assert!(text.contains("8.00 ms / step"), "expected 8 ms/step fallback:\n{text}");
}

/// While paused the frame time is pure rendering, so a per-step figure would be
/// a lie.
#[test]
fn per_step_timing_is_withheld_while_paused() {
    let state = UiState { frame_ms: s(8.0), running: false, ..UiState::default() };
    let text = step_text(&state);
    assert!(per_step(&state).is_none());
    assert!(!text.contains("ms / step"), "no per-step figure while paused:\n{text}");
    assert!(text.contains("paused"));
}

#[test]
fn a_step_takes_its_share_of_the_frame() {
    let state = UiState { frame_ms: s(8.0), steps_per_frame: 4, ..UiState::default() };
    assert_eq!(f(per_step(&state).unwrap()), 2.0);
}

#[test]
fn the_transport_bar_acts() {
    let mut state = UiState::default();
    let mut cmd = UiCommands::default();
    assert_eq!(run_label(&state), "Pause");
    let none = TransportClicks { run: false, step: false, reset: false, new_seed: false };
    transport(&mut state, &mut cmd, TransportClicks { run: true, step: true, ..none });
    assert!(!state.running && cmd.single_step && !cmd.reset && !cmd.reseed_and_reset);
    assert_eq!(run_label(&state), "Run");
    transport(&mut state, &mut cmd, TransportClicks { reset: true, new_seed: true, ..none });
    assert!(!state.running && cmd.single_step && cmd.reset && cmd.reseed_and_reset);
}

#[test]
fn drift_is_graded() {
    let drift = |base: Option<f32>, energy: f32| {
        let state = UiState { energy_baseline: base.map(s), ..UiState::default() };
        let diag = Diagnostics { mean_energy: s(energy), ..Diagnostics::default() };
        energy_drift(&state, &diag).map(|(d, level)| (f(d), level))
    };
    assert_eq!(drift(None, 1.0), None);
    assert_eq!(drift(Some(1e-21), 1.0), None);
    assert_eq!(drift(Some(2.0), 2.0), Some((0.0, DriftLevel::Good)));
    assert_eq!(drift(Some(2.0), 2.01), Some(((2.01f32 - 2.0) / 2.0, DriftLevel::Fair)));
    assert_eq!(drift(Some(2.0), 1.0), Some((-0.5, DriftLevel::Poor)));
    let mut state = UiState::default();
    rezero_baseline(&mut state, &Diagnostics { mean_energy: s(3.0), ..Diagnostics::default() });
    assert_eq!(state.energy_baseline, Some(s(3.0)));
}

#[test]
fn the_baseline_waits_for_the_last_bubble() {
    let b = Some(s(2.0));
    assert_eq!(next_baseline(b, true, 0, s(5.0)), None);
    assert_eq!(next_baseline(None, false, 3, s(5.0)), None);
    assert_eq!(next_baseline(None, false, 0, s(-0.0)), None);
    assert_eq!(next_baseline(None, false, 0, s(5.0)), Some(s(5.0)));
    assert_eq!(next_baseline(b, false, 0, s(5.0)), b);
}

#[test]
fn thin_walls_are_called_out() {
    assert!(!wall_is_thin(&Model::default()));
    assert!(wall_is_thin(&Model { lambda: s(1.0), ..Model::default() }));
}

#[test]
fn switching_the_seed_carries_the_radius_across() {
    let mut m = Model::default();
    let r = m.seed_radius();
    switch_seed(&mut m, true);
    assert!(m.same(&Model::default()));
    switch_seed(&mut m, false);
    assert!(matches!(m.seed_size, SeedSize::Cells(_)));
    assert_eq!(m.seed_radius(), r);
    switch_seed(&mut m, true);
    match m.seed_size {
        SeedSize::Critical(k) => assert!((f(k) - 1.15).abs() < 1e-5),
        SeedSize::Cells(_) => panic!("not switched"),
    }
    // A factor stays within what the slider offers.
    let mut huge = Model { seed_size: SeedSize::Cells(s(1e6)), ..Model::default() };
    switch_seed(&mut huge, true);
    assert_eq!(huge.seed_size, SeedSize::Critical(s(6.0)));
    let mut tiny = Model { seed_size: SeedSize::Cells(s(1e-3)), ..Model::default() };
    switch_seed(&mut tiny, true);
    assert_eq!(tiny.seed_size, SeedSize::Critical(s(0.2)));
}

#[test]
fn seeds_are_judged_by_the_critical_radius() {
    let with = |k: f32| Model { seed_size: SeedSize::Critical(s(k)), ..Model::default() };
    assert_eq!(seed_warnings(&with(0.5)).fate, SeedFate::Collapses);
    assert_eq!(seed_warnings(&with(1.01)).fate, SeedFate::Undecided);
    assert_eq!(seed_warnings(&with(1.15)).fate, SeedFate::Grows);
    assert!(!seed_warnings(&with(1.15)).unresolved);
    let small = Model { seed_size: SeedSize::Cells(s(2.0)), ..Model::default() };
    assert!(seed_warnings(&small).unresolved);
    assert!(!seed_warnings(&small).thick_wall);
    let soft = Model { eps_ratio: s(0.6), ..Model::default() };
    assert!(seed_warnings(&soft).thick_wall);
    let m = Model::default();
    assert_eq!(f(in_critical_radii(&m, m.critical_radius())), 1.0);
}

#[test]
fn the_panel_offers_what_fits() {
    let info = sim_info();
    let budget = lattice_budget(&info).unwrap();
    assert_eq!(budget, vram::lattice_budget(22_000_000_000, 680_000_000));
    let cap = lattice_cap(&info);
    assert_eq!(cap, Simulation::max_cubic_size(2_147_483_648, Some(budget)));
    assert_eq!(cap.side, 512);
    assert!(!cap.limited_by_memory);
    let blind = SimInfo { vram: None, ..info };
    assert_eq!(lattice_budget(&blind), None);
    assert_eq!(lattice_cap(&blind).side, 512);
    assert_eq!(clamp_axis(4, 512), MIN_GRID);
    assert_eq!(clamp_axis(100, 512), 100);
    assert_eq!(clamp_axis(4000, 512), 512);
}

#[test]
fn sliders_settle_the_selection() {
    let mut state = UiState::default();
    settle_lattice(&mut state, 300, 512);
    assert_eq!(state.lattice, [300; 3]);
    settle_lattice(&mut state, 4000, 512);
    assert_eq!(state.lattice, [512; 3]);
    state.lattice_cubic = false;
    state.lattice = [3, 100, 9000];
    settle_lattice(&mut state, 77, 512);
    assert_eq!(state.lattice, [8, 100, 512]);
    // A selection taken from the running lattice stays.
    let info = SimInfo { grid: [256, 128, 128], ..sim_info() };
    state.select_lattice(info.grid);
    settle_lattice(&mut state, 256, 512);
    assert!(!selection(&state, &info).changed);
}

#[test]
fn a_selection_is_judged_by_its_memory() {
    let info = sim_info();
    let mut state = UiState::default();
    let same = selection(&state, &info);
    assert_eq!(same.cells, 192 * 192 * 192);
    assert_eq!(same.bytes, 96 * 192 * 192 * 192);
    assert!(!same.changed && !same.optimistic);
    assert_eq!(same.warning, MemoryWarning::Fine);
    // 96 * 560^3 is 16.9 GB, above four fifths of the 19.3 GB budget.
    state.lattice = [560; 3];
    let near = selection(&state, &info);
    assert!(near.changed);
    assert_eq!(near.warning, MemoryWarning::Close);
    state.lattice = [700; 3];
    assert_eq!(selection(&state, &info).warning, MemoryWarning::Exceeds);
    let unmeasured = SimInfo {
        vram: Some(VramInfo { capacity: 25_769_803_776, budget: None, used: None }),
        ..info
    };
    assert!(selection(&state, &unmeasured).optimistic);
    let blind = SimInfo { vram: None, ..info };
    assert_eq!(selection(&state, &blind).warning, MemoryWarning::Fine);
    assert!(!selection(&state, &blind).optimistic);
}

#[test]
fn applying_asks_for_the_selection() {
    let info = sim_info();
    let mut state = UiState::default();
    let mut cmd = UiCommands::default();
    apply_selection(&mut state, &mut cmd, &info, true, true);
    assert_eq!(cmd.resize, None);
    state.select_lattice([64, 32, 32]);
    apply_selection(&mut state, &mut cmd, &info, true, false);
    assert_eq!(cmd.resize, Some([64, 32, 32]));
    assert_eq!(state.lattice, [64, 32, 32]);
    apply_selection(&mut state, &mut cmd, &info, false, true);
    assert_eq!(state.lattice, [192; 3]);
    assert!(state.lattice_cubic);
}

#[test]
fn another_field_brings_its_settings() {
    let mut r = RenderSettings::default();
    r.field_gain = s(99.0);
    choose_field(&mut r, FieldMode::Kinetic);
    assert_eq!(f(r.field_gain), 99.0);
    choose_field(&mut r, FieldMode::Phi);
    assert_eq!((r.field_mode, f(r.field_gain), r.colormap), (FieldMode::Phi, 0.5, 0));
    r.colormap = 17;
    assert_eq!(shown_colormap(&r), 2);
    r.colormap = 1;
    assert_eq!(shown_colormap(&r), 1);
    choose_cutaway(&mut r, 0);
    assert_eq!(r.clip_axis, -1);
    choose_cutaway(&mut r, 3);
    assert_eq!(r.clip_axis, 2);
}

#[test]
fn modes_have_names() {
    assert_eq!(mode_label(NucleationMode::Simultaneous), "simultaneous");
    assert_eq!(mode_label(NucleationMode::Exponential), "exponential");
    let mut state = UiState::default();
    assert!(duration_matters(&state));
    state.nucleation_mode = NucleationMode::Simultaneous;
    assert!(!duration_matters(&state));
}
