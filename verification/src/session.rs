//! The interactive session: input, the frame clock, and what a frame does.
//!
//! The frame is a single command submission:
//!
//!   1. `n` SSP-RK3 time steps (plus any nucleation that has come due),
//!   2. one pass packing the state into the visualisation 3D texture,
//!   3. optionally the global reduction behind the diagnostics readout,
//!   4. the volume ray-march into the swapchain image,
//!   5. the panel on top.
//!
//! Nothing about the lattice travels to the host or back; the sole exception is
//! a 32-byte diagnostics block fetched asynchronously for the numbers in the
//! panel.

use rand_pcg::Pcg64Mcg;
use vstd::prelude::*;

use crate::camera::{Angles, OrbitCamera, Vector};
use crate::config::Config;
use crate::gpu::render::{RenderSettings, VolumeRenderer};
use crate::gpu::sim;
use crate::gpu::sim::{Command, Diagnostics, FitError, SimError, Simulation, SimulationState};
use crate::gpu::vram::VramInfo;
use crate::physics;
use crate::physics::{BubbleEvent, Model, NucleationMode};
use crate::random;
use crate::scalar::{Scalar, ONE, ZERO};
use crate::text;
use crate::ui;
use crate::ui::{SimInfo, UiCommands, UiState};

verus! {

// ---------------------------------------------------------------------------
//  Surface
// ---------------------------------------------------------------------------

/// What matters of a format that a surface supports.
#[derive(Clone, Copy, Debug, PartialEq, Eq, Structural)]
pub struct SurfaceFormat {
    pub bgra8_unorm: bool,
    pub srgb: bool,
}

/// Whether format `i` is the one to take: the first eight-bit BGRA one, else
/// the first that is not sRGB, else the first.
pub open spec fn is_chosen(formats: Seq<SurfaceFormat>, i: int) -> bool {
    &&& 0 <= i < formats.len()
    &&& if formats[i].bgra8_unorm {
        forall|j: int| 0 <= j < i ==> !(#[trigger] formats[j]).bgra8_unorm
    } else {
        &&& forall|j: int| 0 <= j < formats.len() ==> !(#[trigger] formats[j]).bgra8_unorm
        &&& if !formats[i].srgb {
            forall|j: int| 0 <= j < i ==> (#[trigger] formats[j]).srgb
        } else {
            i == 0 && forall|j: int| 0 <= j < formats.len() ==> (#[trigger] formats[j]).srgb
        }
    }
}

/// Deliberately pick a non-sRGB swapchain format: the volume shader emits
/// gamma-encoded colour and the panel has a matching path for that.
pub fn choose_format(formats: &Vec<SurfaceFormat>) -> (r: Option<usize>)
    ensures
        match r {
            Some(i) => is_chosen(formats@, i as int),
            None => formats@.len() == 0,
        },
{
    let mut i: usize = 0;
    while i < formats.len()
        invariant
            i <= formats.len(),
            forall|j: int| 0 <= j < i ==> !(#[trigger] formats@[j]).bgra8_unorm,
        decreases formats.len() - i,
    {
        if formats[i].bgra8_unorm {
            return Some(i);
        }
        i = i + 1;
    }
    let mut k: usize = 0;
    while k < formats.len()
        invariant
            k <= formats.len(),
            forall|j: int| 0 <= j < formats@.len() ==> !(#[trigger] formats@[j]).bgra8_unorm,
            forall|j: int| 0 <= j < k ==> (#[trigger] formats@[j]).srgb,
        decreases formats.len() - k,
    {
        if !formats[k].srgb {
            return Some(k);
        }
        k = k + 1;
    }
    if formats.len() == 0 {
        None
    } else {
        Some(0)
    }
}

/// A surface extent: a minimised window still has one pixel each way.
pub fn surface_extent(n: u32) -> (r: u32)
    ensures
        r == if n >= 1 {
            n
        } else {
            1
        },
{
    if n >= 1 {
        n
    } else {
        1
    }
}

// ---------------------------------------------------------------------------
//  Input
// ---------------------------------------------------------------------------

#[derive(Clone, Copy, Debug, PartialEq, Eq, Structural)]
pub enum Button {
    Left,
    Right,
    Middle,
    Other,
}

/// A place in the window, in pixels.
#[derive(Clone, Copy, Debug, PartialEq, Eq, Structural)]
pub struct Cursor {
    pub x: Scalar,
    pub y: Scalar,
}

/// What a movement of the cursor does to the camera.
#[derive(Clone, Copy, Debug, PartialEq, Eq, Structural)]
pub enum Motion {
    Still,
    Orbit { dx: Scalar, dy: Scalar },
    Pan { dx: Scalar, dy: Scalar },
}

/// What a turn of the wheel is measured in.
#[derive(Clone, Copy, Debug, PartialEq, Eq, Structural)]
pub enum Scroll {
    Lines(Scalar),
    Pixels(Scalar),
}

#[derive(Clone, Copy, Debug, PartialEq, Eq, Structural)]
pub struct Input {
    pub orbiting: bool,
    pub panning: bool,
    pub last_cursor: Option<Cursor>,
    pub fly_forward: Scalar,
}

/// `0.006`, radians per pixel.
pub const ORBIT_RATE: u32 = 0x3bc4_9ba6;

/// `40`, pixels per line of the wheel.
pub const LINE_PIXELS: u32 = 0x4220_0000;

/// `1.2`, how fast the camera flies.
pub const FLY_RATE: u32 = 0x3f99_999a;

/// `1000`, milliseconds per second.
pub const MILLI: u32 = 0x447a_0000;

impl Default for Input {
    fn default() -> (r: Input)
        ensures
            r == Input::idle(),
    {
        Input {
            orbiting: false,
            panning: false,
            last_cursor: None,
            fly_forward: Scalar::of_bits(ZERO),
        }
    }
}

impl Input {
    pub open spec fn idle() -> Input {
        Input {
            orbiting: false,
            panning: false,
            last_cursor: None,
            fly_forward: Scalar::of_bits(ZERO),
        }
    }

    /// The input state after a button.  A press that the panel takes does
    /// nothing; a release always counts.
    pub open spec fn after_button(self, button: Button, pressed: bool, taken: bool) -> Input {
        if pressed && taken {
            self
        } else {
            Input {
                orbiting: if button == Button::Left {
                    pressed
                } else {
                    self.orbiting
                },
                panning: if button == Button::Right || button == Button::Middle {
                    pressed
                } else {
                    self.panning
                },
                last_cursor: if pressed {
                    self.last_cursor
                } else {
                    None
                },
                ..self
            }
        }
    }

    pub fn on_button(&mut self, button: Button, pressed: bool, taken: bool)
        ensures
            *final(self) == old(self).after_button(button, pressed, taken),
    {
        if pressed && taken {
            return;
        }
        match button {
            Button::Left => {
                self.orbiting = pressed;
            },
            Button::Right => {
                self.panning = pressed;
            },
            Button::Middle => {
                self.panning = pressed;
            },
            Button::Other => {},
        }
        if !pressed {
            self.last_cursor = None;
        }
    }

    /// What moving the cursor to `now` does, in a window of the given height.
    pub open spec fn motion(self, now: Cursor, height: u32) -> Motion {
        match self.last_cursor {
            None => Motion::Still,
            Some(prev) => {
                let dx = now.x.minus(prev.x);
                let dy = now.y.minus(prev.y);
                if self.orbiting {
                    let rate = Scalar::of_bits(ORBIT_RATE);
                    Motion::Orbit { dx: dx.times(rate), dy: dy.times(rate) }
                } else if self.panning {
                    let h = Scalar::of_integer(
                        (if height >= 1 {
                            height
                        } else {
                            1
                        }) as u64,
                    );
                    Motion::Pan { dx: dx.over(h), dy: dy.over(h) }
                } else {
                    Motion::Still
                }
            },
        }
    }

    pub fn on_cursor(&mut self, now: Cursor, height: u32) -> (r: Motion)
        ensures
            r == old(self).motion(now, height),
            *final(self) == (Input {
                last_cursor: if old(self).orbiting || old(self).panning {
                    Some(now)
                } else {
                    None
                },
                ..*old(self)
            }),
    {
        let motion: Motion = match self.last_cursor {
            None => Motion::Still,
            Some(prev) => {
                let dx: Scalar = now.x.minus(prev.x);
                let dy: Scalar = now.y.minus(prev.y);
                if self.orbiting {
                    let rate: Scalar = Scalar::of_bits(ORBIT_RATE);
                    Motion::Orbit { dx: dx.times(rate), dy: dy.times(rate) }
                } else if self.panning {
                    let h: Scalar = Scalar::of_integer(surface_extent(height) as u64);
                    Motion::Pan { dx: dx.over(h), dy: dy.over(h) }
                } else {
                    Motion::Still
                }
            },
        };
        self.last_cursor = if self.orbiting || self.panning {
            Some(now)
        } else {
            None
        };
        motion
    }
}

pub open spec fn zoom_amount_spec(scroll: Scroll) -> Scalar {
    match scroll {
        Scroll::Lines(y) => y,
        Scroll::Pixels(y) => y.over(Scalar::of_bits(LINE_PIXELS)),
    }
}

/// How far a turn of the wheel zooms.
#[verifier::when_used_as_spec(zoom_amount_spec)]
pub fn zoom_amount(scroll: Scroll) -> (r: Scalar)
    ensures
        r == zoom_amount_spec(scroll),
        r == match scroll {
            Scroll::Lines(y) => y,
            Scroll::Pixels(y) => y.over(Scalar::of_bits(LINE_PIXELS)),
        },
{
    match scroll {
        Scroll::Lines(y) => y,
        Scroll::Pixels(y) => y.over(Scalar::of_bits(LINE_PIXELS)),
    }
}

/// A key with a meaning.
#[derive(Clone, Copy, Debug, PartialEq, Eq, Structural)]
pub enum Key {
    Escape,
    Space,
    Forward,
    Back,
    SingleStep,
    Reset,
    Nucleate,
    FrameView,
    HidePanel,
    Other,
}

/// The key that types a text.
pub open spec fn key_of(s: Seq<char>) -> Key {
    if s.len() != 1 {
        Key::Other
    } else if s[0] == 'w' || s[0] == 'W' {
        Key::Forward
    } else if s[0] == 's' || s[0] == 'S' {
        Key::Back
    } else if s[0] == '.' {
        Key::SingleStep
    } else if s[0] == 'r' || s[0] == 'R' {
        Key::Reset
    } else if s[0] == 'n' || s[0] == 'N' {
        Key::Nucleate
    } else if s[0] == 'f' || s[0] == 'F' {
        Key::FrameView
    } else if s[0] == 'h' || s[0] == 'H' {
        Key::HidePanel
    } else {
        Key::Other
    }
}

impl Key {
    /// The key that types a text.
    pub fn of_text(s: &str) -> (r: Key)
        ensures
            r == key_of(s@),
    {
        let chars: Vec<char> = text::chars_of(s);
        if chars.len() != 1 {
            return Key::Other;
        }
        let c: char = chars[0];
        if c == 'w' || c == 'W' {
            Key::Forward
        } else if c == 's' || c == 'S' {
            Key::Back
        } else if c == '.' {
            Key::SingleStep
        } else if c == 'r' || c == 'R' {
            Key::Reset
        } else if c == 'n' || c == 'N' {
            Key::Nucleate
        } else if c == 'f' || c == 'F' {
            Key::FrameView
        } else if c == 'h' || c == 'H' {
            Key::HidePanel
        } else {
            Key::Other
        }
    }
}

/// A key going down or up.
#[derive(Clone, Copy, Debug, PartialEq, Eq, Structural)]
pub struct KeyStroke {
    pub key: Key,
    pub pressed: bool,
    pub repeat: bool,
}

impl KeyStroke {
    /// Pressed just now, not held.
    pub open spec fn fresh(self) -> bool {
        self.pressed && !self.repeat
    }
}

/// How fast the camera flies after a key.
pub open spec fn flight(now: Scalar, k: KeyStroke) -> Scalar {
    let held = if k.pressed {
        Scalar::of_bits(ONE)
    } else {
        Scalar::of_bits(ZERO)
    };
    match k.key {
        Key::Forward => held,
        Key::Back => held.negated(),
        _ => now,
    }
}

/// How far the camera flies in a frame of `dt` seconds.
pub open spec fn flown(fly_forward: Scalar, dt: Scalar) -> Scalar {
    fly_forward.times(dt).times(Scalar::of_bits(FLY_RATE))
}

/// What a key asks for, besides what was asked for already.
pub open spec fn asked(queued: UiCommands, k: KeyStroke) -> UiCommands {
    UiCommands {
        single_step: queued.single_step || (k.key == Key::SingleStep && k.pressed),
        reset: queued.reset || (k.key == Key::Reset && k.fresh()),
        nucleate_now: queued.nucleate_now || (k.key == Key::Nucleate && k.fresh()),
        frame_view: queued.frame_view || (k.key == Key::FrameView && k.fresh()),
        ..queued
    }
}

/// Act on a key that the panel does not take.  Says whether to quit.
pub fn on_key(
    k: KeyStroke,
    ui: &mut UiState,
    input: &mut Input,
    queued: &mut UiCommands,
) -> (quit: bool)
    ensures
        quit == (k.key == Key::Escape && k.pressed),
        *final(ui) == (UiState {
            running: old(ui).running != (k.key == Key::Space && k.fresh()),
            visible: old(ui).visible != (k.key == Key::HidePanel && k.fresh()),
            ..*old(ui)
        }),
        *final(input) == (Input { fly_forward: flight(old(input).fly_forward, k), ..*old(input) }),
        *final(queued) == asked(*old(queued), k),
{
    let fresh: bool = k.pressed && !k.repeat;
    let held: Scalar = if k.pressed {
        Scalar::of_bits(ONE)
    } else {
        Scalar::of_bits(ZERO)
    };
    match k.key {
        Key::Escape => {
            return k.pressed;
        },
        Key::Space => {
            if fresh {
                ui.running = !ui.running;
            }
        },
        Key::Forward => {
            input.fly_forward = held;
        },
        Key::Back => {
            input.fly_forward = held.negated();
        },
        Key::SingleStep => {
            if k.pressed {
                queued.single_step = true;
            }
        },
        Key::Reset => {
            if fresh {
                queued.reset = true;
            }
        },
        Key::Nucleate => {
            if fresh {
                queued.nucleate_now = true;
            }
        },
        Key::FrameView => {
            if fresh {
                queued.frame_view = true;
            }
        },
        Key::HidePanel => {
            if fresh {
                ui.visible = !ui.visible;
            }
        },
        Key::Other => {},
    }
    false
}

// ---------------------------------------------------------------------------
//  Frame clock
// ---------------------------------------------------------------------------

/// How many frames the timing readout looks back.
pub const WINDOW: usize = 64;

/// The window after another frame.
pub open spec fn windowed(times: Seq<Scalar>, dt: Scalar) -> Seq<Scalar> {
    if times.len() == WINDOW {
        times.skip(1).push(dt)
    } else {
        times.push(dt)
    }
}

/// Durations added up in order.
pub open spec fn total(times: Seq<Scalar>) -> Scalar
    decreases times.len(),
{
    if times.len() == 0 {
        Scalar::of_bits(ZERO)
    } else {
        total(times.drop_last()).plus(times.last())
    }
}

/// The longest duration.
pub open spec fn worst(times: Seq<Scalar>) -> Scalar
    decreases times.len(),
{
    if times.len() == 0 {
        Scalar::of_bits(ZERO)
    } else {
        worst(times.drop_last()).max(times.last())
    }
}

/// The average duration.
pub open spec fn mean(times: Seq<Scalar>) -> Scalar {
    total(times).over(
        Scalar::of_integer(
            (if times.len() >= 1 {
                times.len()
            } else {
                1
            }) as u64,
        ),
    )
}

/// The panel with the timing of a window.
pub open spec fn timed(ui: UiState, times: Seq<Scalar>) -> UiState {
    let m = mean(times);
    UiState {
        fps: if Scalar::of_bits(ZERO).lt(m) {
            Scalar::of_bits(ONE).over(m)
        } else {
            Scalar::of_bits(ZERO)
        },
        frame_ms: m.times(Scalar::of_bits(MILLI)),
        frame_ms_max: worst(times).times(Scalar::of_bits(MILLI)),
        ..ui
    }
}

/// Wall-clock seconds of the last frames.
#[derive(Debug)]
pub struct FrameClock {
    pub times: Vec<Scalar>,
}

impl FrameClock {
    pub open spec fn wf(&self) -> bool {
        self.times@.len() <= WINDOW
    }

    pub fn new() -> (r: FrameClock)
        ensures
            r.wf(),
            r.times@ == Seq::<Scalar>::empty(),
    {
        FrameClock { times: Vec::new() }
    }

    /// Take in a frame, and put the timing into the panel.
    pub fn tick(&mut self, dt: Scalar, ui: &mut UiState)
        requires
            old(self).wf(),
        ensures
            final(self).wf(),
            final(self).times@ == windowed(old(self).times@, dt),
            *final(ui) == timed(*old(ui), final(self).times@),
    {
        if self.times.len() == WINDOW {
            let _ = self.times.remove(0);
            assert(self.times@ =~= old(self).times@.skip(1));
        }
        self.times.push(dt);
        let n: usize = self.times.len();
        let mut sum: Scalar = Scalar::of_bits(ZERO);
        let mut most: Scalar = Scalar::of_bits(ZERO);
        let mut i: usize = 0;
        assert(self.times@.take(0) =~= Seq::empty());
        while i < n
            invariant
                i <= n,
                n == self.times@.len(),
                sum == total(self.times@.take(i as int)),
                most == worst(self.times@.take(i as int)),
            decreases n - i,
        {
            assert(self.times@.take(i + 1).drop_last() =~= self.times@.take(i as int));
            sum = sum.plus(self.times[i]);
            most = most.max(self.times[i]);
            i = i + 1;
        }
        assert(self.times@.take(n as int) =~= self.times@);
        let m: Scalar = sum.over(Scalar::of_integer(n as u64));
        ui.fps = if Scalar::of_bits(ZERO).lt(m) {
            Scalar::of_bits(ONE).over(m)
        } else {
            Scalar::of_bits(ZERO)
        };
        ui.frame_ms = m.times(Scalar::of_bits(MILLI));
        ui.frame_ms_max = most.times(Scalar::of_bits(MILLI));
    }
}

/// The window never holds more than its size, and its newest entry is the
/// latest frame.
pub proof fn law_window_keeps_the_latest(times: Seq<Scalar>, dt: Scalar)
    requires
        times.len() <= WINDOW,
    ensures
        1 <= windowed(times, dt).len() <= WINDOW,
        windowed(times, dt).last() == dt,
        forall|i: int|
            0 <= i < windowed(times, dt).len() - 1 ==> #[trigger] windowed(times, dt)[i]
                == times[times.len() - (windowed(times, dt).len() - 1) + i],
{
}

// ---------------------------------------------------------------------------
//  Session
// ---------------------------------------------------------------------------

/// What the placement seed is mixed with for bubbles queued by hand.
pub const EXTRA_SEED: u64 = 0x9E37_79B9_7F4A_7C15;

/// The seed after another.
pub open spec fn next_seed_spec(seed: u64) -> u64 {
    ((seed * 6364136223846793005 + 1442695040888963407) % 0x1_0000_0000_0000_0000) as u64
}

/// The seed after another.
pub fn next_seed(seed: u64) -> (r: u64)
    ensures
        r == next_seed_spec(seed),
{
    assert(seed * 6364136223846793005 <= 0xffff_ffff_ffff_ffff * 6364136223846793005)
        by (nonlinear_arith)
        requires
            0 <= seed <= 0xffff_ffff_ffff_ffff,
    ;
    let wide: u128 = seed as u128 * 6364136223846793005 + 1442695040888963407;
    (wide % 0x1_0000_0000_0000_0000) as u64
}

/// Everything a window shows and holds.
pub struct Session {
    pub sim: Simulation,
    pub renderer: VolumeRenderer,
    pub camera: OrbitCamera,
    pub ui: UiState,
    pub render_settings: RenderSettings,
    pub model: Model,
    pub diagnostics: Diagnostics,
    pub input: Input,
    pub rng: Pcg64Mcg,
    pub clock: FrameClock,
    /// Requested by a key press; consumed by the next frame.
    pub queued: UiCommands,
}

/// The panel of a new session.
pub open spec fn first_panel(config: Config) -> UiState {
    UiState {
        nucleation_mode: config.nucleation,
        bubble_count: config.bubbles,
        nucleation_duration: config.nucleation_duration,
        seed: config.seed,
        steps_per_frame: config.steps_per_frame,
        lattice: config.grid,
        lattice_cubic: ui::is_cubic(config.grid),
        vsync: !config.no_vsync,
        ..UiState::standard()
    }
}

/// The schedule the panel asks for.
pub open spec fn asked_schedule(
    ui: UiState,
    model: Model,
    grid: [u32; 3],
    logs: Seq<Scalar>,
) -> Seq<BubbleEvent> {
    physics::schedule(
        ui.nucleation_mode,
        ui.bubble_count as nat,
        model.seed_radius(),
        grid,
        ui.nucleation_duration,
        logs,
        ui.seed,
    )
}

/// A half-extent as a vector.
pub open spec fn vector_of(v: [Scalar; 3]) -> Vector {
    Vector { x: v[0], y: v[1], z: v[2] }
}

fn to_vector(v: [Scalar; 3]) -> (r: Vector)
    ensures
        r == vector_of(v),
{
    Vector { x: v[0], y: v[1], z: v[2] }
}

/// The simulation with a live model, where it is valid.
pub open spec fn with_model(s: SimulationState, model: Model) -> SimulationState {
    if physics::model_fault(model) is None {
        SimulationState { model, ..s }
    } else {
        s
    }
}

/// How many steps a frame takes: as many as are set while running, one where a
/// single step was asked for.
pub open spec fn frame_steps_spec(ui: UiState, single_step: bool) -> u32 {
    if ui.running {
        ui.steps_per_frame
    } else if single_step {
        1
    } else {
        0
    }
}

pub fn frame_steps(ui: &UiState, single_step: bool) -> (r: u32)
    ensures
        r == frame_steps_spec(*ui, single_step),
{
    if ui.running {
        ui.steps_per_frame
    } else if single_step {
        1
    } else {
        0
    }
}

/// Whether a frame rebuilds the lattice, and at which size, and whether it then
/// starts the run over, and if so from the next seed.
pub fn asked_rebuild(cmd: &UiCommands) -> (r: (Option<[u32; 3]>, Option<bool>))
    ensures
        r == (
            cmd.resize,
            if cmd.reset || cmd.reseed_and_reset {
                Some(cmd.reseed_and_reset)
            } else {
                None
            },
        ),
{
    (
        cmd.resize,
        if cmd.reset || cmd.reseed_and_reset {
            Some(cmd.reseed_and_reset)
        } else {
            None
        },
    )
}

/// The panel once a frame's commands have been acted on: a single step pauses
/// the run.
pub open spec fn acted(ui: UiState, cmd: UiCommands) -> UiState {
    UiState { running: ui.running && !cmd.single_step, ..ui }
}

/// How many steps a frame makes once its commands have been acted on: one where
/// a single step was asked for, running or not, else as many as are set while
/// running, and none while paused.  The step counter moves on by as many.
pub proof fn law_frame_makes_the_steps_asked_for(ui: UiState, cmd: UiCommands, s: SimulationState)
    requires
        s.wf(),
    ensures
        ({
            let n = frame_steps_spec(acted(ui, cmd), cmd.single_step);
            &&& n == if cmd.single_step {
                1
            } else if ui.running {
                ui.steps_per_frame
            } else {
                0
            }
            &&& s.nucleated().advanced(n as nat).steps == s.steps + n
        }),
{
    let n = frame_steps_spec(acted(ui, cmd), cmd.single_step);
    sim::law_steps_rotate_the_slots(s.nucleated(), n as nat);
}

impl Session {
    pub open spec fn wf(&self) -> bool {
        self.sim.wf() && self.clock.wf()
    }

    /// Start a session.
    pub fn new(
        config: &Config,
        max_storage_binding: u64,
        logs: &Vec<Scalar>,
        out: &mut Vec<Command>,
    ) -> (r: Result<Session, SimError>)
        requires
            config.nucleation == NucleationMode::Exponential ==> logs@.len() == config.bubbles,
        ensures
            match r {
                Ok(s) => {
                    let spec = config.sim_spec();
                    &&& s.wf()
                    &&& physics::model_fault(spec.model) is None
                    &&& sim::fit_fault(spec.grid, max_storage_binding) is None
                    &&& s.sim@ == SimulationState::created(spec, logs@)
                    &&& sim::views(final(out)@) == sim::views(old(out)@)
                        + s.sim@.creation_commands()
                    &&& s.renderer == VolumeRenderer::of_grid(config.grid, 0)
                    &&& s.camera == OrbitCamera::standard().framing(
                        vector_of(s.renderer.box_half),
                    )
                    &&& s.ui == first_panel(*config)
                    &&& s.render_settings == RenderSettings::with_field(config.field)
                    &&& s.model == config.model()
                    &&& s.diagnostics == Diagnostics::zero()
                    &&& s.input == Input::idle()
                    &&& random::upcoming_words(s.rng) == random::seeded_words(
                        config.seed ^ EXTRA_SEED,
                    )
                    &&& s.clock.times@.len() == 0
                    &&& s.queued == UiCommands::none()
                },
                Err(SimError::Model(why)) => physics::model_fault(config.model()) == Some(why@)
                    && final(out)@ == old(out)@,
                Err(SimError::Fit(why)) => physics::model_fault(config.model()) is None
                    && sim::fit_fault(config.grid, max_storage_binding) == Some(why) && final(out)@
                    == old(out)@,
            },
    {
        let sim: Simulation = match Simulation::new(
            config.sim_spec(),
            max_storage_binding,
            logs,
            out,
        ) {
            Ok(sim) => sim,
            Err(why) => {
                return Err(why);
            },
        };
        let renderer: VolumeRenderer = VolumeRenderer::new(config.grid);
        let mut camera: OrbitCamera = OrbitCamera::default();
        camera.frame_box(to_vector(renderer.box_half()));
        let mut ui: UiState = UiState::default();
        ui.nucleation_mode = config.nucleation;
        ui.bubble_count = config.bubbles;
        ui.nucleation_duration = config.nucleation_duration;
        ui.seed = config.seed;
        ui.steps_per_frame = config.steps_per_frame;
        ui.vsync = !config.no_vsync;
        ui.select_lattice(config.grid);
        Ok(
            Session {
                sim,
                renderer,
                camera,
                ui,
                render_settings: RenderSettings::with_field(config.field),
                model: config.model(),
                diagnostics: Diagnostics::default(),
                input: Input::default(),
                rng: random::seeded(config.seed ^ EXTRA_SEED),
                clock: FrameClock::new(),
                queued: UiCommands::default(),
            },
        )
    }

    /// Begin a frame that comes `dt` seconds after the last one: keep time, and
    /// fly where a key is held.
    pub fn begin_frame(&mut self, dt: Scalar, angles: Angles)
        requires
            old(self).wf(),
        ensures
            final(self).wf(),
            final(self).clock.times@ == windowed(old(self).clock.times@, dt),
            *final(self) == (Session {
                clock: final(self).clock,
                ui: timed(old(self).ui, final(self).clock.times@),
                camera: if old(self).input.fly_forward.same(Scalar::of_bits(ZERO)) {
                    old(self).camera
                } else {
                    old(self).camera.dollied(
                        angles,
                        flown(old(self).input.fly_forward, dt),
                    )
                },
                ..*old(self)
            }),
    {
        self.clock.tick(dt, &mut self.ui);
        if !self.input.fly_forward.same(Scalar::of_bits(ZERO)) {
            self.camera.dolly(
                angles,
                self.input.fly_forward.times(dt).times(Scalar::of_bits(FLY_RATE)),
            );
        }
    }

    /// What the panel is to know of the simulation.
    pub fn info(&self, vram: Option<VramInfo>, max_storage_binding: u64) -> (r: SimInfo)
        requires
            self.wf(),
            sim::device_bytes(sim::cells(self.sim.grid)) <= u64::MAX,
        ensures
            r == (SimInfo {
                grid: self.sim.grid,
                time: self.sim.time,
                steps: self.sim.steps,
                cells: sim::cells(self.sim.grid) as u64,
                bubbles_remaining: (self.sim@.schedule.len() - self.sim@.next_event) as usize,
                device_bytes: sim::device_bytes(sim::cells(self.sim.grid)) as u64,
                vram,
                max_storage_binding,
            }),
    {
        SimInfo {
            grid: self.sim.grid,
            time: self.sim.time,
            steps: self.sim.steps,
            cells: self.sim.cell_count(),
            bubbles_remaining: self.sim.remaining_bubbles(),
            device_bytes: self.sim.device_memory_bytes(),
            vram,
            max_storage_binding,
        }
    }

    /// Take what the keys have asked for since the last frame.
    pub fn take_queued(&mut self) -> (r: UiCommands)
        ensures
            r == old(self).queued,
            *final(self) == (Session { queued: UiCommands::none(), ..*old(self) }),
    {
        let cmd: UiCommands = self.queued;
        self.queued = UiCommands::default();
        cmd
    }

    /// Take in the model as the panel left it.
    pub fn edit_model(&mut self, edited: Model, out: &mut Vec<Command>)
        requires
            old(self).wf(),
        ensures
            final(self).wf(),
            edited.same(&old(self).model) ==> *final(self) == *old(self) && final(out)@ == old(
                out,
            )@,
            !edited.same(&old(self).model) ==> {
                &&& *final(self) == (Session {
                    sim: final(self).sim,
                    model: edited,
                    ui: UiState { energy_baseline: None, ..old(self).ui },
                    ..*old(self)
                })
                &&& final(self).sim@ == with_model(old(self).sim@, edited)
                &&& physics::model_fault(edited) is Some ==> final(out)@ == old(out)@
                &&& physics::model_fault(edited) is None ==> sim::views(final(out)@)
                    == sim::views(old(out)@) + final(self).sim@.stage_writes().push(
                    final(self).sim@.params_write(),
                )
            },
    {
        if !edited.same(&self.model) {
            self.model = edited;
            self.sim.set_model(out, edited);
            self.ui.energy_baseline = None;
        }
    }

    /// Start the run over, with the live model and the schedule that the panel
    /// asks for, from the same seed or the next.
    pub fn reset(&mut self, new_seed: bool, logs: &Vec<Scalar>, out: &mut Vec<Command>)
        requires
            old(self).wf(),
            old(self).ui.nucleation_mode == NucleationMode::Exponential ==> logs@.len() == old(
                self,
            ).ui.bubble_count,
        ensures
            final(self).wf(),
            *final(self) == (Session {
                sim: final(self).sim,
                ui: UiState {
                    seed: if new_seed {
                        next_seed_spec(old(self).ui.seed)
                    } else {
                        old(self).ui.seed
                    },
                    energy_baseline: None,
                    ..old(self).ui
                },
                ..*old(self)
            }),
            final(self).sim@ == with_model(old(self).sim@, old(self).model).restarted(
                asked_schedule(final(self).ui, old(self).model, old(self).sim.grid, logs@),
            ),
            ({
                let tail = final(self).sim@.restart_commands();
                let live = with_model(old(self).sim@, old(self).model);
                sim::views(final(out)@) == sim::views(old(out)@) + (if physics::model_fault(
                    old(self).model,
                ) is None {
                    live.stage_writes().push(live.params_write())
                } else {
                    Seq::empty()
                }) + tail
            }),
    {
        if new_seed {
            self.ui.seed = next_seed(self.ui.seed);
        }
        let schedule: Vec<BubbleEvent> = physics::make_schedule(
            self.ui.nucleation_mode,
            self.ui.bubble_count,
            self.model.seed_radius(),
            self.sim.grid,
            self.ui.nucleation_duration,
            logs,
            self.ui.seed,
        );
        let ghost before = sim::views(out@);
        self.sim.set_model(out, self.model);
        assert(before + Seq::<sim::CommandView>::empty() =~= before);
        self.sim.reset(out, Some(schedule));
        self.ui.energy_baseline = None;
    }

    /// Rebuild at another lattice size and start the run over there, with the
    /// live model and the schedule that the panel asks for.  A size that cannot
    /// be had leaves everything as it is.
    ///
    /// `spec_logs` and `logs` are the logarithms that the spec of the
    /// simulation and the panel ask for.
    pub fn resize(
        &mut self,
        grid: [u32; 3],
        max_storage_binding: u64,
        spec_logs: &Vec<Scalar>,
        logs: &Vec<Scalar>,
        interim: &mut Vec<Command>,
        out: &mut Vec<Command>,
    ) -> (r: Result<(), FitError>)
        requires
            old(self).wf(),
            old(self).sim.spec.nucleation == NucleationMode::Exponential ==> spec_logs@.len()
                == old(self).sim.spec.bubbles,
            old(self).ui.nucleation_mode == NucleationMode::Exponential ==> logs@.len() == old(
                self,
            ).ui.bubble_count,
        ensures
            final(self).wf(),
            match r {
                Err(why) => {
                    &&& sim::fit_fault(grid, max_storage_binding) == Some(why)
                    &&& *final(self) == *old(self)
                    &&& final(interim)@ == old(interim)@
                    &&& final(out)@ == old(out)@
                },
                Ok(()) => {
                    let spec = sim::SimulationSpec {
                        grid,
                        model: old(self).sim.model,
                        ..old(self).sim.spec
                    };
                    let built = SimulationState::created(spec, spec_logs@);
                    &&& sim::fit_fault(grid, max_storage_binding) is None
                    &&& *final(self) == (Session {
                        sim: final(self).sim,
                        renderer: VolumeRenderer::of_grid(grid, old(self).renderer.frame),
                        ui: UiState {
                            lattice: grid,
                            lattice_cubic: ui::is_cubic(grid),
                            energy_baseline: None,
                            ..old(self).ui
                        },
                        ..*old(self)
                    })
                    &&& final(self).sim@ == with_model(built, old(self).model).restarted(
                        asked_schedule(old(self).ui, old(self).model, grid, logs@),
                    )
                    &&& sim::views(final(interim)@) == sim::views(old(interim)@)
                        + SimulationState::created(
                        (sim::SimulationSpec {
                            grid: [sim::MIN_GRID, sim::MIN_GRID, sim::MIN_GRID],
                            ..spec
                        }),
                        spec_logs@,
                    ).creation_commands()
                    &&& sim::views(final(out)@) == sim::views(old(out)@)
                        + built.creation_commands() + (if physics::model_fault(
                        old(self).model,
                    ) is None {
                        with_model(built, old(self).model).stage_writes().push(
                            with_model(built, old(self).model).params_write(),
                        )
                    } else {
                        Seq::empty()
                    }) + final(self).sim@.restart_commands()
                },
            },
    {
        match self.sim.resize(grid, max_storage_binding, spec_logs, interim, out) {
            Ok(()) => {},
            Err(why) => {
                return Err(why);
            },
        }
        self.renderer.rebind(grid);
        self.ui.select_lattice(grid);
        self.reset(false, logs, out);
        Ok(())
    }

    /// Act on what was asked for, besides resizing and resetting.
    pub fn act(&mut self, cmd: &UiCommands)
        requires
            old(self).wf(),
        ensures
            final(self).wf(),
            *final(self) == (Session {
                sim: final(self).sim,
                rng: final(self).rng,
                camera: if cmd.frame_view {
                    old(self).camera.framing(vector_of(old(self).renderer.box_half))
                } else {
                    old(self).camera
                },
                ui: acted(old(self).ui, *cmd),
                ..*old(self)
            }),
            !cmd.nucleate_now ==> final(self).sim == old(self).sim && final(self).rng == old(
                self,
            ).rng,
            cmd.nucleate_now ==> final(self).sim@ == (SimulationState {
                schedule: old(self).sim@.schedule.insert(
                    old(self).sim@.next_event,
                    BubbleEvent {
                        time: old(self).sim.time,
                        pos: physics::position(
                            random::upcoming_words(old(self).rng),
                            0,
                            old(self).sim.grid,
                        ),
                        radius: old(self).sim.model.seed_radius(),
                    },
                ),
                ..old(self).sim@
            }),
            cmd.nucleate_now ==> forall|i: nat| #[trigger]
                random::upcoming_words(final(self).rng)[i] == random::upcoming_words(
                    old(self).rng,
                )[i + 3],
    {
        if cmd.nucleate_now {
            self.sim.nucleate_now(&mut self.rng);
        }
        if cmd.frame_view {
            self.camera.frame_box(to_vector(self.renderer.box_half()));
        }
        if cmd.single_step {
            self.ui.running = false;
        }
    }

    /// Record the frame: its steps, the visualisation of where they lead, and
    /// the reduction behind the diagnostics where the last one has been read.
    pub fn record(&mut self, single_step: bool, out: &mut Vec<Command>)
        requires
            old(self).wf(),
            old(self).sim.steps + frame_steps_spec(old(self).ui, single_step) <= u64::MAX,
        ensures
            final(self).wf(),
            *final(self) == (Session { sim: final(self).sim, ..*old(self) }),
            ({
                let n = frame_steps_spec(old(self).ui, single_step);
                let before = old(self).sim@;
                let stepped = if n > 0 {
                    before.nucleated().advanced(n as nat)
                } else {
                    before
                };
                let steps = if n > 0 {
                    seq![before.params_write()] + before.nucleation_commands()
                        + before.nucleated().advance_commands(n as nat)
                } else {
                    Seq::empty()
                };
                let idle = before.readback == sim::ReadbackState::Idle;
                &&& final(self).sim@ == (SimulationState {
                    copy_issued: idle || before.copy_issued,
                    ..stepped
                })
                &&& sim::views(final(out)@) == sim::views(old(out)@) + steps
                    + stepped.visualisation() + if idle {
                    stepped.reduction()
                } else {
                    Seq::empty()
                }
            }),
    {
        let n: u32 = frame_steps(&self.ui, single_step);
        let ghost start = sim::views(out@);
        let ghost before = self.sim@;
        if n > 0 {
            self.sim.record_steps(out, n);
            proof {
                sim::law_steps_rotate_the_slots(before.nucleated(), n as nat);
                assert(sim::views(out@) =~= start + (seq![before.params_write()]
                    + before.nucleation_commands() + before.nucleated().advance_commands(
                    n as nat,
                )));
            }
        } else {
            assert(sim::views(out@) =~= start + Seq::<sim::CommandView>::empty());
        }
        let ghost after = sim::views(out@);
        self.sim.record_visualisation(out);
        let ghost shown = sim::views(out@);
        self.sim.record_diagnostics(out);
        assert(shown + Seq::<sim::CommandView>::empty() =~= shown);
    }

    /// End a frame: keep the energy baseline up to date.
    pub fn end_frame(&mut self)
        requires
            old(self).wf(),
        ensures
            final(self).wf(),
            *final(self) == (Session {
                ui: UiState {
                    energy_baseline: ui::next_baseline_spec(
                        old(self).ui.energy_baseline,
                        old(self).sim.nucleated_this_frame,
                        (old(self).sim@.schedule.len() - old(self).sim@.next_event) as usize,
                        old(self).diagnostics.mean_energy,
                    ),
                    ..old(self).ui
                },
                ..*old(self)
            }),
    {
        self.ui.energy_baseline = ui::next_baseline(
            self.ui.energy_baseline,
            self.sim.nucleated_this_frame,
            self.sim.remaining_bubbles(),
            self.diagnostics.mean_energy,
        );
    }
}

} // verus!
