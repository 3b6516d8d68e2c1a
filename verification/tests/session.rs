use bubble_simulation::camera::{Angles, OrbitCamera};
use bubble_simulation::config::Config;
use bubble_simulation::gpu::sim::{Command, FitError, SimError};
use bubble_simulation::physics::{make_schedule, Model, NucleationMode};
use bubble_simulation::scalar::Scalar;
use bubble_simulation::session::{
    asked_rebuild, choose_format, frame_steps, next_seed, on_key, surface_extent, zoom_amount,
    Button, Cursor, FrameClock, Input, Key, KeyStroke, Motion, Scroll, Session, SurfaceFormat,
};
use bubble_simulation::ui::{UiCommands, UiState};
use rand::{Rng, SeedableRng};
use rand_pcg::Pcg64Mcg;

fn s(x: f32) -> Scalar {
    Scalar::of_bits(x.to_bits())
}

fn f(x: Scalar) -> f32 {
    f32::from_bits(x.bits)
}

const LIMIT: u64 = 2_147_483_648;

fn config() -> Config {
    Config {
        grid: [32, 16, 16],
        nucleation: NucleationMode::Simultaneous,
        bubbles: 2,
        seed: 5,
        ..Config::default()
    }
}

fn start() -> Session {
    let mut out: Vec<Command> = Vec::new();
    match Session::new(&config(), LIMIT, &vec![], &mut out) {
        Ok(x) => x,
        Err(e) => panic!("{e:?}"),
    }
}

fn angles() -> Angles {
    Angles { sin_yaw: s(0.6), cos_yaw: s(0.8), sin_pitch: s(0.0), cos_pitch: s(1.0) }
}

#[test]
fn the_swapchain_avoids_srgb() {
    let format = |bgra8_unorm: bool, srgb: bool| SurfaceFormat { bgra8_unorm, srgb };
    assert_eq!(choose_format(&vec![]), None);
    let srgb_only = vec![format(false, true), format(false, true)];
    assert_eq!(choose_format(&srgb_only), Some(0));
    let plain = vec![format(false, true), format(false, false), format(false, false)];
    assert_eq!(choose_format(&plain), Some(1));
    let both = vec![format(false, false), format(false, true), format(true, false)];
    assert_eq!(choose_format(&both), Some(2));
    assert_eq!(surface_extent(0), 1);
    assert_eq!(surface_extent(950), 950);
}

#[test]
fn dragging_moves_the_camera() {
    let mut input = Input::default();
    let at = |x: f32, y: f32| Cursor { x: s(x), y: s(y) };
    assert_eq!(input.on_cursor(at(1.0, 1.0), 100), Motion::Still);
    assert_eq!(input.last_cursor, None);
    // A press that the panel takes is not a drag.
    input.on_button(Button::Left, true, true);
    assert!(!input.orbiting);
    input.on_button(Button::Left, true, false);
    assert!(input.orbiting);
    assert_eq!(input.on_cursor(at(10.0, 20.0), 100), Motion::Still);
    let expected = Motion::Orbit { dx: s(5.0 * 0.006), dy: s(-10.0 * 0.006) };
    assert_eq!(input.on_cursor(at(15.0, 10.0), 100), expected);
    // A release counts wherever it happens.
    input.on_button(Button::Left, false, true);
    assert_eq!((input.orbiting, input.last_cursor), (false, None));
    for button in [Button::Right, Button::Middle] {
        input.on_button(button, true, false);
        input.on_cursor(at(0.0, 0.0), 200);
        let expected = Motion::Pan { dx: s(50.0 / 200.0), dy: s(20.0 / 200.0) };
        assert_eq!(input.on_cursor(at(50.0, 20.0), 200), expected);
        input.on_button(button, false, false);
        assert!(!input.panning);
    }
    input.on_button(Button::Other, true, false);
    assert!(!input.orbiting && !input.panning);
    // A window without height counts as one pixel high.
    input.on_button(Button::Right, true, false);
    input.on_cursor(at(0.0, 0.0), 0);
    assert_eq!(input.on_cursor(at(3.0, 0.0), 0), Motion::Pan { dx: s(3.0), dy: s(0.0) });
}

#[test]
fn the_wheel_zooms() {
    assert_eq!(f(zoom_amount(Scroll::Lines(s(-2.0)))), -2.0);
    assert_eq!(f(zoom_amount(Scroll::Pixels(s(60.0)))), 1.5);
}

#[test]
fn keys_do_what_the_help_says() {
    let press = |key: Key| KeyStroke { key, pressed: true, repeat: false };
    let hold = |key: Key| KeyStroke { key, pressed: true, repeat: true };
    let release = |key: Key| KeyStroke { key, pressed: false, repeat: false };
    let mut ui = UiState::default();
    let mut input = Input::default();
    let mut queued = UiCommands::default();
    assert!(on_key(press(Key::Escape), &mut ui, &mut input, &mut queued));
    assert!(!on_key(release(Key::Escape), &mut ui, &mut input, &mut queued));
    on_key(press(Key::Space), &mut ui, &mut input, &mut queued);
    on_key(hold(Key::Space), &mut ui, &mut input, &mut queued);
    assert!(!ui.running);
    on_key(press(Key::of_text("h")), &mut ui, &mut input, &mut queued);
    assert!(!ui.visible);
    on_key(press(Key::of_text("W")), &mut ui, &mut input, &mut queued);
    assert_eq!(f(input.fly_forward), 1.0);
    on_key(press(Key::of_text("s")), &mut ui, &mut input, &mut queued);
    assert_eq!(f(input.fly_forward), -1.0);
    on_key(release(Key::of_text("s")), &mut ui, &mut input, &mut queued);
    assert_eq!(f(input.fly_forward), 0.0);
    on_key(hold(Key::of_text("r")), &mut ui, &mut input, &mut queued);
    on_key(hold(Key::of_text("n")), &mut ui, &mut input, &mut queued);
    assert!(!queued.reset && !queued.nucleate_now);
    // A held full stop goes on stepping.
    on_key(hold(Key::of_text(".")), &mut ui, &mut input, &mut queued);
    assert!(queued.single_step);
    for text in ["R", "n", "F"] {
        on_key(press(Key::of_text(text)), &mut ui, &mut input, &mut queued);
    }
    assert!(queued.reset && queued.nucleate_now && queued.frame_view);
    assert!(!queued.reseed_and_reset && queued.resize.is_none());
    assert_eq!(Key::of_text("ww"), Key::Other);
    assert_eq!(Key::of_text(""), Key::Other);
    assert_eq!(Key::of_text("x"), Key::Other);
}

#[test]
fn the_clock_looks_back_a_window() {
    let mut clock = FrameClock::new();
    let mut ui = UiState::default();
    clock.tick(s(0.5), &mut ui);
    clock.tick(s(0.25), &mut ui);
    assert_eq!(f(ui.frame_ms), 375.0);
    assert_eq!(f(ui.frame_ms_max), 500.0);
    assert_eq!(f(ui.fps), 1.0 / 0.375);
    for _ in 0..64 {
        clock.tick(s(0.125), &mut ui);
    }
    assert_eq!(clock.times.len(), 64);
    assert_eq!(f(ui.frame_ms), 125.0);
    assert_eq!(f(ui.frame_ms_max), 125.0);
    assert_eq!(f(ui.fps), 8.0);
    let mut still = FrameClock::new();
    still.tick(s(0.0), &mut ui);
    assert_eq!(f(ui.fps), 0.0);
}

#[test]
fn seeds_follow_one_another() {
    for seed in [0u64, 1, 77, u64::MAX] {
        let expected = seed.wrapping_mul(6364136223846793005).wrapping_add(1442695040888963407);
        assert_eq!(next_seed(seed), expected);
    }
}

#[test]
fn a_session_starts_from_the_configuration() {
    let x = start();
    assert_eq!(x.ui.lattice, [32, 16, 16]);
    assert!(!x.ui.lattice_cubic && x.ui.vsync && x.ui.running);
    assert_eq!((x.ui.bubble_count, x.ui.seed, x.ui.steps_per_frame), (2, 5, 2));
    assert_eq!(x.sim.remaining_bubbles(), 2);
    assert!(x.model.same(&Model::default()));
    assert_eq!(x.renderer.grid, [32, 16, 16]);
    // Half-extents 0.5, 0.25, 0.25.
    assert_eq!(f(x.camera.distance), (0.25f32 + 0.0625 + 0.0625).sqrt() * 2.4);
    let mut rng = x.rng;
    let mut twin = Pcg64Mcg::seed_from_u64(5 ^ 0x9E37_79B9_7F4A_7C15);
    assert_eq!(rng.random::<u64>(), twin.random::<u64>());
    let mut out: Vec<Command> = Vec::new();
    let bad = Config { grid: [4, 16, 16], ..config() };
    match Session::new(&bad, LIMIT, &vec![], &mut out) {
        Err(SimError::Fit(FitError::AxisTooSmall { axis: 0, n: 4 })) => {}
        _ => panic!("a short axis is refused"),
    }
}

#[test]
fn held_keys_fly() {
    let mut x = start();
    let before = x.camera;
    x.begin_frame(s(0.5), angles());
    assert_eq!(x.camera, before);
    x.input.fly_forward = s(-1.0);
    x.begin_frame(s(0.5), angles());
    let mut expected: OrbitCamera = before;
    expected.dolly(angles(), s(-1.0 * 0.5 * 1.2));
    assert_eq!(x.camera, expected);
    assert_eq!(f(x.ui.frame_ms), 500.0);
}

#[test]
fn an_edit_reaches_the_simulation() {
    let mut x = start();
    let mut out: Vec<Command> = Vec::new();
    x.ui.energy_baseline = Some(s(1.0));
    x.edit_model(Model::default(), &mut out);
    assert!(out.is_empty() && x.ui.energy_baseline.is_some());
    let stiffer = Model { lambda: s(1.0), ..Model::default() };
    x.edit_model(stiffer, &mut out);
    assert_eq!(out.len(), 4);
    assert!(x.sim.model.same(&stiffer) && x.model.same(&stiffer));
    assert!(x.ui.energy_baseline.is_none());
    // What the simulation cannot use it does not take.
    out.clear();
    x.edit_model(Model { cfl: s(0.9), ..stiffer }, &mut out);
    assert!(out.is_empty());
    assert!(x.sim.model.same(&stiffer));
    assert_eq!(f(x.model.cfl), 0.9);
}

#[test]
fn a_reset_takes_the_panel_into_account() {
    let mut x = start();
    let mut out: Vec<Command> = Vec::new();
    x.record(true, &mut out);
    x.ui.bubble_count = 4;
    x.ui.energy_baseline = Some(s(1.0));
    x.reset(true, &vec![], &mut out);
    assert_eq!(x.ui.seed, next_seed(5));
    assert!(x.ui.energy_baseline.is_none());
    assert_eq!((x.sim.steps, x.sim.remaining_bubbles()), (0, 4));
    let expected = make_schedule(
        NucleationMode::Simultaneous,
        4,
        x.model.seed_radius(),
        [32, 16, 16],
        s(60.0),
        &vec![],
        next_seed(5),
    );
    for (a, b) in x.sim.schedule.iter().zip(&expected) {
        assert_eq!(a.pos, b.pos);
    }
    let seed = x.ui.seed;
    x.reset(false, &vec![], &mut out);
    assert_eq!(x.ui.seed, seed);
}

#[test]
fn a_resize_keeps_the_live_model() {
    let mut x = start();
    let mut out: Vec<Command> = Vec::new();
    let mut interim: Vec<Command> = Vec::new();
    let stiffer = Model { lambda: s(1.0), ..Model::default() };
    x.edit_model(stiffer, &mut out);
    x.record(true, &mut out);
    x.resize([64, 64, 64], LIMIT, &vec![], &vec![], &mut interim, &mut out).unwrap();
    assert_eq!(x.sim.grid, [64; 3]);
    assert_eq!(x.renderer.grid, [64; 3]);
    assert_eq!(x.ui.lattice, [64; 3]);
    assert!(x.ui.lattice_cubic);
    assert!(x.sim.model.same(&stiffer));
    assert_eq!((x.sim.steps, x.sim.remaining_bubbles()), (0, 2));
    assert!(!interim.is_empty());
    let refused = x.resize([4; 3], LIMIT, &vec![], &vec![], &mut interim, &mut out);
    assert_eq!(refused, Err(FitError::AxisTooSmall { axis: 0, n: 4 }));
    assert_eq!(x.sim.grid, [64; 3]);
}

#[test]
fn a_frame_rebuilds_what_was_asked_for() {
    let none = UiCommands::default();
    assert_eq!(asked_rebuild(&none), (None, None));
    assert_eq!(asked_rebuild(&UiCommands { reset: true, ..none }), (None, Some(false)));
    let reseed = UiCommands { reset: true, reseed_and_reset: true, ..none };
    assert_eq!(asked_rebuild(&reseed), (None, Some(true)));
    let both = UiCommands { resize: Some([64; 3]), reseed_and_reset: true, ..none };
    assert_eq!(asked_rebuild(&both), (Some([64; 3]), Some(true)));
}

/// A single step is one step, whether or not the run is going on.
#[test]
fn a_frame_makes_the_steps_asked_for() {
    for (running, single_step, steps) in
        [(true, true, 1), (false, true, 1), (true, false, 4), (false, false, 0)]
    {
        let mut x = start();
        x.ui.running = running;
        x.ui.steps_per_frame = 4;
        x.act(&UiCommands { single_step, ..UiCommands::default() });
        x.record(single_step, &mut Vec::new());
        assert_eq!(x.sim.steps, steps);
    }
}

#[test]
fn commands_are_acted_on() {
    let mut x = start();
    x.queued.nucleate_now = true;
    x.queued.single_step = true;
    x.queued.frame_view = true;
    let cmd = x.take_queued();
    assert!(!x.queued.single_step);
    x.camera.zoom(s(1.0));
    x.act(&cmd);
    assert_eq!(x.sim.remaining_bubbles(), 3);
    assert!(!x.ui.running);
    assert_eq!(f(x.camera.distance), (0.25f32 + 0.0625 + 0.0625).sqrt() * 2.4);
    assert_eq!(frame_steps(&x.ui, cmd.single_step), 1);
    assert_eq!(frame_steps(&x.ui, false), 0);
    x.ui.running = true;
    assert_eq!(frame_steps(&x.ui, true), 2);
}

#[test]
fn a_frame_steps_shows_and_measures() {
    let mut x = start();
    let mut out: Vec<Command> = Vec::new();
    x.record(false, &mut out);
    // Parameters, nucleation (3), two steps of six passes, two passes of
    // visualisation, the reduction (4).
    assert_eq!(out.len(), 1 + 3 + 12 + 2 + 4);
    assert_eq!(x.sim.steps, 2);
    assert!(x.sim.copy_issued);
    x.ui.running = false;
    assert!(x.sim.after_submit());
    out.clear();
    x.record(false, &mut out);
    assert_eq!(out.len(), 2);
    assert_eq!(x.sim.steps, 2);
}

#[test]
fn the_baseline_is_kept_up_to_date() {
    let mut x = start();
    let mut out: Vec<Command> = Vec::new();
    x.diagnostics.mean_energy = s(3.0);
    x.end_frame();
    assert_eq!(x.ui.energy_baseline, None);
    x.record(false, &mut out);
    x.end_frame();
    assert_eq!(x.ui.energy_baseline, None);
    x.record(false, &mut out);
    x.end_frame();
    assert_eq!(x.ui.energy_baseline, Some(s(3.0)));
}

#[test]
fn the_panel_is_told_what_runs() {
    let x = start();
    let info = x.info(None, LIMIT);
    assert_eq!(info.grid, [32, 16, 16]);
    assert_eq!(info.cells, 8192);
    assert_eq!(info.device_bytes, 96 * 8192 + 32_960);
    assert_eq!(info.bubbles_remaining, 2);
    assert_eq!(info.max_storage_binding, LIMIT);
}
