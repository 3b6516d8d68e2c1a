//! What the keys, the buttons, the cursor and the panel do, as numbers and choices.

use vstd::arithmetic::div_mod::*;
use vstd::arithmetic::power2::*;
use vstd::prelude::*;

use crate::accuracy;
use crate::config::Config;
use crate::geometry;
use crate::gpu::sim::SimulationState;
use crate::nucleation;
use crate::physics;
use crate::physics::Model;
use crate::rounding;
use crate::scalar;
use crate::scalar::{Scalar, ONE, ZERO};
use crate::session;
use crate::session::{Button, Cursor, Input, Key, KeyStroke, Motion, Scroll};
use crate::signed;
use crate::torus;
use crate::ui::{UiCommands, UiState};

verus! {

/// Whether a place is one in a window.
pub open spec fn in_window(c: Cursor) -> bool {
    &&& c.x.is_finite() && torus::size(accuracy::exact(c.x)) <= 100_000 as real
    &&& c.y.is_finite() && torus::size(accuracy::exact(c.y)) <= 100_000 as real
}

proof fn lemma_orbit_rate()
    ensures
        accuracy::positive(Scalar::of_bits(session::ORBIT_RATE)),
        accuracy::within(
            1000 as real * accuracy::exact(Scalar::of_bits(session::ORBIT_RATE)),
            6 as real,
            1 as real / 1_000_000 as real,
        ),
{
    lemma2_to64();
    let a = session::ORBIT_RATE;
    assert(scalar::significand(a as nat) == 0xc4_9ba6 && scalar::exponent(a as nat) == 118);
    accuracy::lemma_pattern(a, 31);
    assert(accuracy::exact(Scalar::of_bits(a)) * 0x8000_0000 as real == 0xc4_9ba6 as real);
}

proof fn lemma_share(x: real)
    ensures
        0x80_0000 as real * (accuracy::step() * x) == x,
{
    accuracy::lemma_step();
    let e = accuracy::step();
    assert(0x80_0000 as real * (e * x) == x) by (nonlinear_arith)
        requires
            0x80_0000 as real * e == 1 as real,
    ;
}

proof fn lemma_unit()
    ensures
        1_000_000_000_000_000_000 as real * accuracy::unit() <= 1 as real,
        accuracy::unit() > 0 as real,
        accuracy::far() >= 1_000_000_000_000_000_000 as real,
{
    lemma2_to64();
    lemma_pow2_strictly_increases(64, 149);
    lemma_pow2_strictly_increases(64, 100);
    let (z, u) = (scalar::one_units() as real, accuracy::unit());
    accuracy::lemma_quotient_back(1 as real, z);
    assert(1_000_000_000_000_000_000 as real * u <= 1 as real) by (nonlinear_arith)
        requires
            u * z == 1 as real,
            z >= 1_000_000_000_000_000_000 as real,
            u > 0 as real,
    ;
}

/// How far the cursor went along one direction.
proof fn lemma_travel(now: Scalar, prev: Scalar)
    requires
        now.is_finite(),
        prev.is_finite(),
        torus::size(accuracy::exact(now)) <= 100_000 as real,
        torus::size(accuracy::exact(prev)) <= 100_000 as real,
    ensures
        now.minus(prev).is_finite(),
        ({
            let t = accuracy::exact(now) - accuracy::exact(prev);
            accuracy::within(accuracy::exact(now.minus(prev)), t, torus::size(t) / 8_000_000 as real)
        }),
{
    signed::lemma_finite(prev);
    signed::lemma_sum_finite(now, prev.negated());
    signed::lemma_difference(now, prev);
    lemma_share(torus::size(accuracy::exact(now) - accuracy::exact(prev)));
}

/// A turn is six thousandths of a radian for each pixel.
proof fn lemma_turn(now: Scalar, prev: Scalar)
    requires
        now.is_finite(),
        prev.is_finite(),
        torus::size(accuracy::exact(now)) <= 100_000 as real,
        torus::size(accuracy::exact(prev)) <= 100_000 as real,
    ensures
        ({
            let t = accuracy::exact(now) - accuracy::exact(prev);
            let r = now.minus(prev).times(Scalar::of_bits(session::ORBIT_RATE));
            accuracy::within(
                1000 as real * accuracy::exact(r),
                6 as real * t,
                (torus::size(t) + 1 as real) / 100_000 as real,
            )
        }),
{
    lemma_unit();
    lemma_orbit_rate();
    lemma_travel(now, prev);
    let rate = Scalar::of_bits(session::ORBIT_RATE);
    let d = now.minus(prev);
    accuracy::lemma_positive(rate);
    let (t, x, k) = (
        accuracy::exact(now) - accuracy::exact(prev),
        accuracy::exact(d),
        accuracy::exact(rate),
    );
    let (s, v) = (torus::size(t), torus::size(x));
    assert(v <= s + s / 8_000_000 as real);
    accuracy::lemma_order(v, 1_000_000 as real, k);
    assert(k * v == v * k) by (nonlinear_arith);
    signed::lemma_product_finite(d, rate);
    signed::lemma_product(d, rate);
    signed::lemma_size_product(x, k);
    lemma_share(v * k);
    // x k against six thousandths of t.
    let g = 6 as real / 1000 as real;
    assert(x * k == x * g + x * (k - g)) by (nonlinear_arith);
    signed::lemma_size_product(x, k - g);
    accuracy::lemma_order(torus::size(k - g), 1 as real / 1_000_000_000 as real, v);
    accuracy::lemma_order(k, 7 as real / 1000 as real, v);
    assert(x * g == 6 as real * x / 1000 as real) by (nonlinear_arith)
        requires
            g == 6 as real / 1000 as real,
    ;
}

/// A slide is the share of the height of the window that the cursor went.
proof fn lemma_slide(now: Scalar, prev: Scalar, height: u32)
    requires
        now.is_finite(),
        prev.is_finite(),
        torus::size(accuracy::exact(now)) <= 100_000 as real,
        torus::size(accuracy::exact(prev)) <= 100_000 as real,
        height >= 1,
    ensures
        ({
            let t = accuracy::exact(now) - accuracy::exact(prev);
            let r = now.minus(prev).over(Scalar::of_integer(height as u64));
            accuracy::within(
                accuracy::exact(r) * height as real,
                t,
                (torus::size(t) + 1 as real) / 1_000_000 as real,
            )
        }),
{
    lemma_unit();
    lemma_travel(now, prev);
    let n = Scalar::of_integer(height as u64);
    accuracy::lemma_integer_near(height as u64);
    accuracy::lemma_positive(n);
    let d = now.minus(prev);
    let (t, x, h, b) = (
        accuracy::exact(now) - accuracy::exact(prev),
        accuracy::exact(d),
        height as real,
        accuracy::exact(n),
    );
    let (s, v) = (torus::size(t), torus::size(x));
    signed::lemma_finite(d);
    accuracy::lemma_order(1 as real, b, accuracy::far());
    accuracy::lemma_over_finite(d.abs(), n);
    lemma_over_of_size(d, n);
    signed::lemma_quotient(d, n);
    let y = x / b;
    let r = accuracy::exact(d.over(n));
    accuracy::lemma_quotient_back(x, b);
    accuracy::lemma_near_within(b, h, 1);
    lemma_share(h);
    // y h is x up to a step.
    let w = torus::size(y);
    signed::lemma_size_product(y, b);
    assert(w * b == v);
    accuracy::lemma_order(0 as real, w, h);
    assert(y * h == x + y * (h - b)) by (nonlinear_arith)
        requires
            y * b == x,
    ;
    signed::lemma_size_product(y, h - b);
    accuracy::lemma_order(torus::size(h - b), b / 4_000_000 as real, w);
    assert(w * (b / 4_000_000 as real) == (w * b) / 4_000_000 as real) by (nonlinear_arith);
    // r against y, times h.
    let m = accuracy::step() * w + accuracy::unit();
    accuracy::lemma_order(r, y + m, h);
    accuracy::lemma_order(y - m, r, h);
    assert((y + m) * h == y * h + m * h && (y - m) * h == y * h - m * h) by (nonlinear_arith);
    assert(m * h == accuracy::step() * (w * h) + accuracy::unit() * h) by (nonlinear_arith)
        requires
            m == accuracy::step() * w + accuracy::unit(),
    ;
    lemma_share(w * h);
    accuracy::lemma_order(h, 2 as real * b, w);
    assert(w * (2 as real * b) == 2 as real * (w * b)) by (nonlinear_arith);
    accuracy::lemma_order(h, 4_294_967_296 as real, accuracy::unit());
}

/// A quotient is finite where that of the size is.
proof fn lemma_over_of_size(a: Scalar, b: Scalar)
    requires
        a.is_finite(),
        accuracy::positive(b),
        a.abs().over(b).is_finite(),
    ensures
        a.over(b).is_finite(),
{
    reveal(Scalar::over_spec);
    signed::lemma_finite(a);
    accuracy::lemma_counts(a.abs());
    accuracy::lemma_positive(b);
    let m = rounding_of(a, b);
    scalar::lemma_signed(false, m);
    scalar::lemma_signed(true, m);
}

/// The size of a quotient.
spec fn rounding_of(a: Scalar, b: Scalar) -> nat {
    rounding::round_magnitude(
        scalar::units(a.magnitude()) * scalar::one_units(),
        scalar::units(b.bits as nat),
    )
}

/// Dragging turns the camera while the left button is held, six thousandths of a radian
/// for each pixel, and else slides it by the share of the height of the window; without a
/// button, or at the start of a drag, nothing moves.
pub proof fn law_drags_turn_or_slide(input: Input, prev: Cursor, now: Cursor, height: u32)
    requires
        in_window(prev),
        in_window(now),
        height >= 1,
    ensures
        (Input { last_cursor: None, ..input }).motion(now, height) == Motion::Still,
        ({
            let i = Input { last_cursor: Some(prev), ..input };
            let (x, y) = (
                accuracy::exact(now.x) - accuracy::exact(prev.x),
                accuracy::exact(now.y) - accuracy::exact(prev.y),
            );
            let h = height as real;
            &&& !input.orbiting && !input.panning ==> i.motion(now, height) == Motion::Still
            &&& input.orbiting ==> (i.motion(now, height) matches Motion::Orbit { dx, dy } && {
                &&& accuracy::within(
                    1000 as real * accuracy::exact(dx),
                    6 as real * x,
                    (torus::size(x) + 1 as real) / 100_000 as real,
                )
                &&& accuracy::within(
                    1000 as real * accuracy::exact(dy),
                    6 as real * y,
                    (torus::size(y) + 1 as real) / 100_000 as real,
                )
            })
            &&& !input.orbiting && input.panning ==> (i.motion(now, height) matches Motion::Pan {
                dx,
                dy,
            } && {
                &&& accuracy::within(
                    accuracy::exact(dx) * h,
                    x,
                    (torus::size(x) + 1 as real) / 1_000_000 as real,
                )
                &&& accuracy::within(
                    accuracy::exact(dy) * h,
                    y,
                    (torus::size(y) + 1 as real) / 1_000_000 as real,
                )
            })
        }),
{
    lemma_turn(now.x, prev.x);
    lemma_turn(now.y, prev.y);
    lemma_slide(now.x, prev.x, height);
    lemma_slide(now.y, prev.y, height);
}

/// A line of the wheel zooms by one, and forty pixels by as much.
pub proof fn law_forty_pixels_zoom_like_a_line(y: Scalar)
    requires
        y.is_finite(),
        torus::size(accuracy::exact(y)) <= 1_000_000 as real,
    ensures
        session::zoom_amount(Scroll::Lines(y)) == y,
        accuracy::within(
            40 as real * accuracy::exact(session::zoom_amount(Scroll::Pixels(y))),
            accuracy::exact(y),
            (torus::size(accuracy::exact(y)) + 1 as real) / 1_000_000 as real,
        ),
{
    lemma_unit();
    lemma2_to64();
    let bits = session::LINE_PIXELS;
    assert(scalar::significand(bits as nat) == 0xa0_0000 && scalar::exponent(bits as nat) == 131);
    accuracy::lemma_pattern(bits, 18);
    let n = Scalar::of_bits(bits);
    let b = accuracy::exact(n);
    assert(b * 0x4_0000 as real == 0xa0_0000 as real);
    assert(b == 40 as real);
    signed::lemma_finite(y);
    accuracy::lemma_order(1 as real, b, accuracy::far());
    accuracy::lemma_over_finite(y.abs(), n);
    lemma_over_of_size(y, n);
    signed::lemma_quotient(y, n);
    let x = accuracy::exact(y);
    let t = x / 40 as real;
    lemma_share(torus::size(t));
}

/// The camera flies 1.2 distances a second, forwards or backwards.
pub proof fn law_flight_has_its_speed(fly_forward: Scalar, dt: Scalar)
    requires
        fly_forward.is_finite(),
        torus::size(accuracy::exact(fly_forward)) <= 1 as real,
        accuracy::counts(dt),
        accuracy::exact(dt) <= 1000 as real,
    ensures
        accuracy::within(
            10 as real * accuracy::exact(session::flown(fly_forward, dt)),
            12 as real * (accuracy::exact(fly_forward) * accuracy::exact(dt)),
            (accuracy::exact(dt) + 1 as real) / 100_000 as real,
        ),
{
    lemma_unit();
    lemma2_to64();
    let bits = session::FLY_RATE;
    assert(scalar::significand(bits as nat) == 0x99_999a && scalar::exponent(bits as nat) == 126);
    accuracy::lemma_pattern(bits, 23);
    let n = Scalar::of_bits(bits);
    let (f, d, g) = (accuracy::exact(fly_forward), accuracy::exact(dt), accuracy::exact(n));
    assert(g * 0x80_0000 as real == 0x99_999a as real);
    accuracy::lemma_counts(dt);
    geometry::lemma_product(fly_forward, dt);
    accuracy::lemma_order(torus::size(f), 1 as real, d);
    let p = fly_forward.times(dt);
    let (x, t) = (accuracy::exact(p), f * d);
    geometry::lemma_product(p, n);
    let c = 12 as real / 10 as real;
    let (h, k) = (x - t, g - c);
    assert(x * g == t * c + t * k + h * g) by (nonlinear_arith)
        requires
            h == x - t,
            k == g - c,
    ;
    signed::lemma_size_product(t, k);
    signed::lemma_size_product(h, g);
    accuracy::lemma_order(torus::size(k), 1 as real / 10_000_000 as real, torus::size(t));
    accuracy::lemma_order(g, 2 as real, torus::size(h));
    accuracy::lemma_order(g, 2 as real, torus::size(x));
    assert(t * c == 12 as real * t / 10 as real) by (nonlinear_arith)
        requires
            c == 12 as real / 10 as real,
    ;
}

/// The left button turns and the others slide, for as long as they are held; a press that
/// the panel takes does nothing, and a release ends the drag.
pub proof fn law_buttons_hold_what_they_start(input: Input, button: Button, taken: bool)
    ensures
        input.after_button(button, true, true) == input,
        ({
            let down = input.after_button(button, true, false);
            &&& down.orbiting == (input.orbiting || button == Button::Left)
            &&& down.panning == (input.panning || button == Button::Right || button
                == Button::Middle)
            &&& down.last_cursor == input.last_cursor
            &&& down.fly_forward == input.fly_forward
        }),
        ({
            let up = input.after_button(button, false, taken);
            &&& up.orbiting == (input.orbiting && button != Button::Left)
            &&& up.panning == (input.panning && button != Button::Right && button
                != Button::Middle)
            &&& up.last_cursor is None
            &&& up.fly_forward == input.fly_forward
        }),
{
}

/// The camera flies forwards or backwards while its key is held, and stops when that key is
/// released; no other key changes its flight.
pub proof fn law_keys_fly_while_they_are_held(now: Scalar, repeat: bool, key: Key)
    ensures
        accuracy::exact(
            session::flight(now, KeyStroke { key: Key::Forward, pressed: true, repeat }),
        ) == 1 as real,
        accuracy::exact(
            session::flight(now, KeyStroke { key: Key::Back, pressed: true, repeat }),
        ) == -1int as real,
        accuracy::exact(
            session::flight(now, KeyStroke { key: Key::Forward, pressed: false, repeat }),
        ) == 0 as real,
        accuracy::exact(
            session::flight(now, KeyStroke { key: Key::Back, pressed: false, repeat }),
        ) == 0 as real,
        key != Key::Forward && key != Key::Back ==> forall|pressed: bool|
            #[trigger] session::flight(now, KeyStroke { key, pressed, repeat }) == now,
{
    nucleation::lemma_zero_and_half();
    signed::lemma_finite(Scalar::of_bits(ONE));
    signed::lemma_finite(Scalar::of_bits(ZERO));
}

/// A key asks for what it stands for and forgets nothing that was asked for; only the single
/// step repeats while it is held, and a release asks for nothing.
pub proof fn law_keys_ask_for_what_they_stand_for(queued: UiCommands, key: Key, repeat: bool)
    ensures
        session::asked(queued, KeyStroke { key, pressed: false, repeat }) == queued,
        ({
            let q = session::asked(queued, KeyStroke { key, pressed: true, repeat });
            &&& q.single_step == (queued.single_step || key == Key::SingleStep)
            &&& q.reset == (queued.reset || (key == Key::Reset && !repeat))
            &&& q.nucleate_now == (queued.nucleate_now || (key == Key::Nucleate && !repeat))
            &&& q.frame_view == (queued.frame_view || (key == Key::FrameView && !repeat))
            &&& q.reseed_and_reset == queued.reseed_and_reset
            &&& q.resize == queued.resize
        }),
{
}

/// The window of frame times holds the last sixty-four.
pub proof fn law_window_is_sixty_four_frames(times: Seq<Scalar>, dt: Scalar)
    requires
        times.len() <= 64,
    ensures
        session::windowed(times, dt).len() == if times.len() < 64 {
            times.len() + 1
        } else {
            64
        },
        session::windowed(times, dt).last() == dt,
        times.len() < 64 ==> session::windowed(times, dt).drop_last() == times,
        times.len() == 64 ==> session::windowed(times, dt).drop_last() == times.skip(1),
{
    let w = session::windowed(times, dt);
    if times.len() < 64 {
        assert(w.drop_last() =~= times);
    } else {
        assert(w.drop_last() =~= times.skip(1));
    }
}

/// A new seed is never the old one, and different seeds lead to different ones.
pub proof fn law_next_seed_is_another(a: u64, b: u64)
    ensures
        session::next_seed_spec(a) != a,
        session::next_seed_spec(a) == session::next_seed_spec(b) ==> a == b,
{
    let m = 0x1_0000_0000_0000_0000int;
    let (k, c) = (6364136223846793005int, 1442695040888963407int);
    let (x, y) = (a * k + c, b * k + c);
    lemma_fundamental_div_mod(x, m);
    lemma_fundamental_div_mod(y, m);
    if session::next_seed_spec(a) == a {
        lemma_no_fixed_point(a as int, x, x / m);
    }
    if session::next_seed_spec(a) == session::next_seed_spec(b) {
        assert(x % m == y % m);
        lemma_multiplier_inverts(a as int, b as int, x, y, x / m, y / m, x % m);
    }
}

/// A multiplier that is one more than a multiple of four, and an odd increment, leave nothing
/// as it is.
proof fn lemma_no_fixed_point(a: int, x: int, q: int)
    requires
        x == a * 6364136223846793005 + 1442695040888963407,
    ensures
        x != 0x1_0000_0000_0000_0000 * q + a,
{
    if x == 0x1_0000_0000_0000_0000 * q + a {
        let g = a * 1591034055961698251;
        assert(a * 6364136223846793005 == 4 * g + a) by (nonlinear_arith)
            requires
                g == a * 1591034055961698251,
        ;
        assert(4 * g + 1442695040888963407 == 0x1_0000_0000_0000_0000 * q);
    }
}

/// The multiplier has an inverse, so that what it leads to tells where it came from.
proof fn lemma_multiplier_inverts(a: int, b: int, x: int, y: int, p: int, q: int, r: int)
    requires
        0 <= a < 0x1_0000_0000_0000_0000,
        0 <= b < 0x1_0000_0000_0000_0000,
        x == a * 6364136223846793005 + 1442695040888963407,
        y == b * 6364136223846793005 + 1442695040888963407,
        x == 0x1_0000_0000_0000_0000 * p + r,
        y == 0x1_0000_0000_0000_0000 * q + r,
    ensures
        a == b,
{
    let m = 0x1_0000_0000_0000_0000int;
    let (k, i) = (6364136223846793005int, 13877824140714322085int);
    let (d, t) = (a - b, p - q);
    assert(d * k == m * t);
    let n = 4787856489426250814int;
    assert(k * i == m * n + 1);
    assert((d * k) * i == d * (k * i)) by (nonlinear_arith);
    assert((m * t) * i == m * (t * i)) by (nonlinear_arith);
    assert(d * (m * n + 1) == m * (d * n) + d) by (nonlinear_arith);
    let z = t * i - d * n;
    assert(m * z == m * (t * i) - m * (d * n)) by (nonlinear_arith)
        requires
            z == t * i - d * n,
    ;
    assert(d == m * z);
}

/// The panel of a new session shows the configuration, and runs.
pub proof fn law_panel_starts_from_the_configuration(c: Config)
    ensures
        ({
            let p = session::first_panel(c);
            &&& p.running && p.visible
            &&& p.nucleation_mode == c.nucleation && p.bubble_count == c.bubbles
            &&& p.nucleation_duration == c.nucleation_duration && p.seed == c.seed
            &&& p.steps_per_frame == c.steps_per_frame && p.lattice == c.grid
            &&& p.lattice_cubic == (c.grid[0] == c.grid[1] && c.grid[1] == c.grid[2])
            &&& p.vsync == !c.no_vsync
            &&& p.energy_baseline is None
        }),
{
}

/// Starting over, a run has as many bubbles as the panel asks for, of the radius of the live
/// model, all in the box; and the panel's settings and the live model alone decide on them.
pub proof fn law_panel_decides_on_the_bubbles(
    a: UiState,
    b: UiState,
    model: Model,
    grid: [u32; 3],
    logs: Seq<Scalar>,
)
    requires
        a.nucleation_mode == b.nucleation_mode,
        a.bubble_count == b.bubble_count,
        a.nucleation_duration == b.nucleation_duration,
        a.seed == b.seed,
    ensures
        ({
            let s = session::asked_schedule(a, model, grid, logs);
            &&& s == session::asked_schedule(b, model, grid, logs)
            &&& s.len() == a.bubble_count
            &&& forall|i: int|
                0 <= i < s.len() ==> (#[trigger] s[i]).radius == model.seed_radius()
                    && physics::in_box(s[i].pos, grid)
        }),
{
    physics::law_bubbles_lie_in_the_box(
        a.nucleation_mode,
        a.bubble_count as nat,
        model.seed_radius(),
        grid,
        a.nucleation_duration,
        logs,
        a.seed,
    );
}

/// An edited model takes the place of the live one exactly if it is accepted, and changes
/// nothing else of a simulation.
pub proof fn law_edited_model_goes_live_if_accepted(s: SimulationState, model: Model)
    ensures
        ({
            let t = session::with_model(s, model);
            &&& physics::model_fault(model) is None ==> t.model == model
            &&& physics::model_fault(model) is Some ==> t == s
            &&& t.grid == s.grid && t.spec == s.spec && t.time == s.time && t.steps == s.steps
            &&& t.vis_gain == s.vis_gain && t.schedule == s.schedule && t.cur == s.cur
            &&& t.next_event == s.next_event && t.diagnostics == s.diagnostics
            &&& t.readback == s.readback && t.copy_issued == s.copy_issued
            &&& t.nucleated_this_frame == s.nucleated_this_frame
        }),
{
}

} // verus!
