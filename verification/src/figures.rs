//! The figures that are reported and shown, as numbers.

use vstd::arithmetic::power2::*;
use vstd::prelude::*;

use crate::accuracy;
use crate::config;
use crate::config::Config;
use crate::gpu::sim;
use crate::gpu::sim::Diagnostics;
use crate::gpu::vram;
use crate::gpu::vram::VramInfo;
use crate::headless;
use crate::headless::Progress;
use crate::nucleation;
use crate::physics;
use crate::physics::{Model, SeedSize};
use crate::potential;
use crate::rounding;
use crate::scalar;
use crate::scalar::{Scalar, ONE, THREE, TWO, ZERO};
use crate::session;
use crate::signed;
use crate::torus;
use crate::ui;
use crate::ui::{DriftLevel, MemoryWarning, SeedFate, SimInfo, UiState};

verus! {

/// A step is a small share.
proof fn lemma_share(x: real)
    ensures
        0x80_0000 as real * (accuracy::step() * x) == x,
{
    accuracy::lemma_step();
    let e = accuracy::step();
    assert(0x80_0000 as real * (e * x) == x) by (nonlinear_arith)
        requires
            0x80_0000 as real * e == 1 as real,
    ;
}

/// The smallest number is far below everything that has a size.
proof fn lemma_unit()
    ensures
        1_000_000_000_000_000_000 as real * accuracy::unit() <= 1 as real,
        accuracy::unit() > 0 as real,
{
    lemma2_to64();
    lemma_pow2_strictly_increases(64, 149);
    let (z, u) = (scalar::one_units() as real, accuracy::unit());
    accuracy::lemma_quotient_back(1 as real, z);
    assert(1_000_000_000_000_000_000 as real * u <= 1 as real) by (nonlinear_arith)
        requires
            u * z == 1 as real,
            z >= 1_000_000_000_000_000_000 as real,
            u > 0 as real,
    ;
}

// ---------------------------------------------------------------------------
//  Windowless runs
// ---------------------------------------------------------------------------

/// A sphere of the equivalent radius has the volume of the broken phase: `4 pi` times
/// the cube of the radius is three times the fraction times the number of cells.
pub proof fn law_equivalent_sphere_has_the_broken_volume(diag: Diagnostics, cells: u64)
    requires
        cells > 0,
        accuracy::positive(diag.broken_fraction),
        accuracy::exact(diag.broken_fraction) <= 2 as real,
        1_000_000_000 as real * accuracy::exact(diag.broken_fraction) >= 1 as real,
    ensures
        ({
            let c = accuracy::exact(headless::radius_cubed(diag, cells));
            let volume = accuracy::exact(diag.broken_fraction) * cells as real;
            let four_pi = 12_566_371 as real / 1_000_000 as real;
            accuracy::near(four_pi * c, 3 as real * volume, 16)
        }),
{
    let three = Scalar::of_bits(THREE);
    let pi = Scalar::of_bits(headless::FOUR_PI);
    let x = diag.broken_fraction;
    let n = Scalar::of_integer(cells);
    lemma_volume_constants();
    accuracy::lemma_integer_near(cells);
    accuracy::lemma_positive(x);
    let (f, t) = (accuracy::exact(x), cells as real);
    let v = f * t;
    accuracy::lemma_positive_product(f, t);
    accuracy::lemma_order(1 as real, t, f);
    accuracy::lemma_order(f, 2 as real, t);
    accuracy::lemma_order(1_000_000_000 as real, accuracy::wide(), v);
    accuracy::lemma_near_itself(f);
    accuracy::lemma_near_itself(3 as real);
    accuracy::lemma_times_of(x, f, 0, n, t, 1);
    accuracy::lemma_order(1_000_000_000 as real, accuracy::wide(), v * 3 as real);
    accuracy::lemma_times_of(x.times(n), v, 4, three, 3 as real, 0);
    let p = 12_566_371 as real / 1_000_000 as real;
    let w = v * 3 as real;
    accuracy::lemma_quotient_back(w, p);
    accuracy::lemma_order(1_000_000_000_000 as real, accuracy::wide(), w / p);
    accuracy::lemma_over_of(x.times(n).times(three), w, 7, pi, p, 1);
    let c = accuracy::exact(headless::radius_cubed(diag, cells));
    accuracy::lemma_near_itself(p);
    accuracy::lemma_near_product(p, p, 0, c, w / p, 11);
    assert(p * (w / p) == w) by (nonlinear_arith)
        requires
            (w / p) * p == w,
    ;
    accuracy::lemma_near_widens(p * c, w, 12, 16);
}

proof fn lemma_volume_constants()
    ensures
        accuracy::positive(Scalar::of_bits(THREE)),
        accuracy::exact(Scalar::of_bits(THREE)) == 3 as real,
        accuracy::positive(Scalar::of_bits(headless::FOUR_PI)),
        accuracy::near(
            accuracy::exact(Scalar::of_bits(headless::FOUR_PI)),
            12_566_371 as real / 1_000_000 as real,
            1,
        ),
{
    lemma2_to64();
    assert(scalar::significand(THREE as nat) == 0xc0_0000 && scalar::exponent(THREE as nat) == 127);
    accuracy::lemma_pattern(THREE, 22);
    assert(accuracy::exact(Scalar::of_bits(THREE)) * 0x40_0000 as real == 0xc0_0000 as real);
    let bits = headless::FOUR_PI;
    assert(scalar::significand(bits as nat) == 0xc9_0fdb && scalar::exponent(bits as nat) == 129);
    accuracy::lemma_pattern(bits, 20);
    let x = accuracy::exact(Scalar::of_bits(bits));
    assert(x * 0x10_0000 as real == 0xc9_0fdb as real);
    let t = 12_566_371 as real / 1_000_000 as real;
    lemma_one_step(t);
    lemma_share(t);
}

/// What near by one step means.
proof fn lemma_one_step(t: real)
    ensures
        ({
            let e = accuracy::step();
            &&& t * (1 as real - 1int as real * e) == t - e * t
            &&& t * (1 as real + 1int as real * e) == t + e * t
        }),
{
    let e = accuracy::step();
    assert(t * (1 as real - 1int as real * e) == t - e * t && t * (1 as real + 1int as real * e) == t
        + e * t) by (nonlinear_arith);
}

/// A run without a window makes the steps that were asked for, none where only a
/// picture was, and reports as often as was asked for, else every twentieth of the
/// way, at least after every step.
pub proof fn law_windowless_runs_follow_the_configuration(c: Config)
    ensures
        headless::plan_of(c) is Some <==> c.headless is Some || c.screenshot is Some,
        headless::plan_of(c) matches Some(plan) ==> {
            &&& c.headless matches Some(n) ==> plan.0 == n
            &&& c.headless is None ==> plan.0 == 0
            &&& c.report_every matches Some(n) ==> plan.1 == n
            &&& c.report_every is None ==> plan.1 >= 1 && (plan.0 >= 20 ==> plan.1 * 20 <= plan.0
                && plan.0 < (plan.1 + 1) * 20)
            &&& c.report_every is None && plan.0 < 20 ==> plan.1 == 1
        },
{
}

/// A run reports after as many steps as were asked for, sooner only at its end, and
/// takes the energy of the first report without bubbles to come as its baseline.
pub proof fn law_reports_come_when_they_are_due(p: Progress, diag: Diagnostics, remaining: usize)
    requires
        p.wf(),
        p.done < p.steps,
    ensures
        ({
            let next = p.reported(diag, remaining);
            let made = next.done - p.done;
            &&& 0 < made <= p.report_every
            &&& made == p.report_every || next.done == p.steps
            &&& next.steps == p.steps && next.report_every == p.report_every
            &&& p.baseline is None && remaining > 0 ==> next.baseline is None
            &&& p.baseline is None && remaining == 0 ==> next.baseline == Some(diag.mean_energy)
            &&& p.baseline is Some ==> next.baseline == p.baseline
        }),
{
}

// ---------------------------------------------------------------------------
//  Configurations
// ---------------------------------------------------------------------------

/// The simulation of a run is built from its configuration, each parameter from its
/// own, in units where the true vacuum and the spacing are one.
pub proof fn law_configuration_reaches_the_simulation(c: Config)
    ensures
        ({
            let spec = c.sim_spec();
            let m = spec.model;
            &&& spec.grid == c.grid && spec.bubbles == c.bubbles && spec.seed == c.seed
            &&& spec.nucleation == c.nucleation
            &&& spec.nucleation_duration == c.nucleation_duration
            &&& m.lambda == c.lambda && m.eps_ratio == c.eps_ratio && m.alpha == c.alpha
            &&& m.eta == c.eta && m.cfl == c.cfl
            &&& accuracy::exact(m.phi_b) == 1 as real && accuracy::exact(m.dx) == 1 as real
            &&& c.seed_radius matches Some(r) ==> m.seed_size == SeedSize::Cells(r)
            &&& c.seed_radius is None ==> m.seed_size == SeedSize::Critical(c.seed_factor)
        }),
{
    accuracy::lemma_constants();
    accuracy::lemma_constant(ONE, 1, 1);
}

/// A configuration is accepted exactly if its model is, it has bubbles, steps and a
/// duration, no axis has fewer than eight cells, and the wall spans two cells.
pub proof fn law_configurations_are_accepted_by_their_ranges(c: Config)
    requires
        c.nucleation_duration.is_finite(),
        c.model().wall_width().is_finite(),
    ensures
        config::config_fault(c) is None <==> {
            &&& physics::model_fault(c.model()) is None
            &&& c.bubbles > 0
            &&& c.steps_per_frame > 0
            &&& accuracy::exact(c.nucleation_duration) > 0 as real
            &&& accuracy::exact(c.model().wall_width()) >= 2 as real
            &&& c.grid[0] >= 8 && c.grid[1] >= 8 && c.grid[2] >= 8
        },
{
    lemma_compares(c.nucleation_duration, Scalar::of_bits(ZERO));
    lemma_compares(c.model().wall_width(), Scalar::of_bits(TWO));
    lemma_small_numbers();
}

/// A wall of two cells is a coupling of two: one that is a little larger is refused,
/// one that is a little smaller is not refused for its wall.
pub proof fn law_couplings_above_two_are_refused(c: Config)
    requires
        potential::resolved(c.model()),
    ensures
        1000 as real * accuracy::exact(c.lambda) >= 2001 as real ==> config::config_fault(c) is Some,
        1000 as real * accuracy::exact(c.lambda) <= 1999 as real ==> accuracy::exact(
            c.model().wall_width(),
        ) >= 2 as real,
{
    let m = c.model();
    potential::law_scales_follow_the_coupling(m);
    let (l, w) = (accuracy::exact(m.lambda), accuracy::exact(m.wall_width()));
    let p = (w * w) * l;
    accuracy::lemma_near_within(p, 8 as real, 14);
    lemma_share(8 as real);
    accuracy::lemma_positive_product(w, w);
    if 1000 as real * l >= 2001 as real {
        potential::lemma_wall_is_finite(m);
        lemma_compares(m.wall_width(), Scalar::of_bits(TWO));
        lemma_small_numbers();
        if w >= 2 as real {
            torus::lemma_square_order(2 as real, w);
            accuracy::lemma_order(4 as real, w * w, l);
        }
    }
    if 1000 as real * l <= 1999 as real {
        if w < 2 as real {
            torus::lemma_square_order(w, 2 as real);
            accuracy::lemma_order(l, 1999 as real / 1000 as real, w * w);
        }
    }
}

/// How numbers compare is how what they stand for does.
proof fn lemma_compares(a: Scalar, b: Scalar)
    requires
        a.is_finite(),
        b.is_finite(),
    ensures
        a.lt(b) <==> accuracy::exact(a) < accuracy::exact(b),
        a.le(b) <==> accuracy::exact(a) <= accuracy::exact(b),
        a.same(b) <==> accuracy::exact(a) == accuracy::exact(b),
{
    nucleation::lemma_compares(a, b);
}

proof fn lemma_small_numbers()
    ensures
        accuracy::exact(Scalar::of_bits(ZERO)) == 0 as real,
        accuracy::exact(Scalar::of_bits(ONE)) == 1 as real,
        accuracy::exact(Scalar::of_bits(TWO)) == 2 as real,
        accuracy::exact(Scalar::of_bits(THREE)) == 3 as real,
{
    nucleation::lemma_zero_and_half();
    accuracy::lemma_constants();
    accuracy::lemma_constant(TWO, 2, 1);
    lemma_volume_constants();
}

// ---------------------------------------------------------------------------
//  Device memory
// ---------------------------------------------------------------------------

/// What is free is what the driver will hand out beyond what is used, never less than
/// nothing, and the whole capacity where it does not say.
pub proof fn law_free_memory_is_budget_beyond_use(v: VramInfo)
    ensures
        v.budget is Some && v.used is Some && v.used->0 <= v.budget->0 ==> v.available_spec()
            + v.used->0 == v.budget->0,
        v.budget is Some && v.used is Some && v.used->0 > v.budget->0 ==> v.available_spec() == 0,
        v.budget is None || v.used is None ==> v.available_spec() == v.capacity,
{
}

/// A lattice that replaces the running one may take 85 hundredths of what is free and
/// what the running one gives back, to a billionth, cut to whole bytes.
pub proof fn law_replacement_takes_its_share(info: SimInfo)
    requires
        info.vram is Some,
    ensures
        ({
            let total = info.vram->0.available_spec() + info.device_bytes;
            let share = ui::budget_of(info)->0;
            &&& ui::budget_of(info) is Some
            &&& total <= u64::MAX ==> {
                &&& 1_000_000_000 * share <= 850_000_001 * total
                &&& 1_000_000_000 * (share + 1) >= 849_999_999 * total
            }
            &&& total > u64::MAX ==> 100 * share <= 86 * u64::MAX
        }),
{
    let total = info.vram->0.available_spec() + info.device_bytes;
    let t = vram::saturating_sum(info.vram->0.available_spec(), info.device_bytes);
    vram::law_budget_keeps_headroom(t);
    vram::law_budget_is_the_share(t);
}

// ---------------------------------------------------------------------------
//  The panel
// ---------------------------------------------------------------------------

/// The time per step, times the steps of a frame, is the time per frame; paused there
/// is none.
pub proof fn law_time_per_step_adds_up_to_the_frame(state: UiState)
    requires
        accuracy::positive(state.frame_ms),
        accuracy::exact(state.frame_ms) <= 1_000_000_000 as real,
        1_000_000_000 as real * accuracy::exact(state.frame_ms) >= 1 as real,
    ensures
        !state.running ==> ui::per_step_spec(state) is None,
        state.running ==> ui::per_step_spec(state) is Some,
        state.running && state.steps_per_frame > 0 ==> accuracy::near(
            accuracy::exact(ui::per_step_spec(state)->0) * state.steps_per_frame as real,
            accuracy::exact(state.frame_ms),
            5,
        ),
{
    if state.running && state.steps_per_frame > 0 {
        let k = state.steps_per_frame as u64;
        let n = Scalar::of_integer(k);
        accuracy::lemma_integer_near(k);
        let (x, t) = (accuracy::exact(state.frame_ms), k as real);
        accuracy::lemma_near_itself(x);
        accuracy::lemma_quotient_back(x, t);
        let s = x / t;
        accuracy::lemma_order(1 as real, t, s);
        let g = 1_000_000_000 as real;
        accuracy::lemma_order(t, 5 as real * g, s);
        accuracy::lemma_order((5 as real * g) * g, accuracy::wide(), s);
        assert(g * ((5 as real * g) * s) == ((5 as real * g) * g) * s) by (nonlinear_arith);
        accuracy::lemma_over_of(state.frame_ms, x, 0, n, t, 1);
        accuracy::lemma_near_itself(t);
        accuracy::lemma_near_product(
            accuracy::exact(state.frame_ms.over(n)),
            s,
            4,
            t,
            t,
            0,
        );
    }
}

proof fn lemma_drift_constants()
    ensures
        accuracy::positive(Scalar::of_bits(ui::GOOD_DRIFT)),
        accuracy::positive(Scalar::of_bits(ui::FAIR_DRIFT)),
        accuracy::positive(Scalar::of_bits(sim::NO_ENERGY)),
        accuracy::within(
            1000 as real * accuracy::exact(Scalar::of_bits(ui::GOOD_DRIFT)),
            1 as real,
            1 as real / 1_000_000 as real,
        ),
        accuracy::within(
            100 as real * accuracy::exact(Scalar::of_bits(ui::FAIR_DRIFT)),
            1 as real,
            1 as real / 1_000_000 as real,
        ),
        10_000_000_000 as real * (10_000_000_000 as real * accuracy::exact(
            Scalar::of_bits(sim::NO_ENERGY),
        )) < 2 as real,
{
    lemma2_to64();
    rounding::lemma_pow2_sum(32, 1);
    let (a, b, c) = (ui::GOOD_DRIFT, ui::FAIR_DRIFT, sim::NO_ENERGY);
    assert(scalar::significand(a as nat) == 0x83_126f && scalar::exponent(a as nat) == 116);
    accuracy::lemma_pattern(a, 33);
    assert(scalar::significand(b as nat) == 0xa3_d70a && scalar::exponent(b as nat) == 119);
    accuracy::lemma_pattern(b, 30);
    assert(pow2(33) == 0x2_0000_0000 && pow2(30) == 0x4000_0000);
    assert(accuracy::exact(Scalar::of_bits(a)) * 0x2_0000_0000 as real == 0x83_126f as real);
    assert(accuracy::exact(Scalar::of_bits(b)) * 0x4000_0000 as real == 0xa3_d70a as real);
    assert(scalar::significand(c as nat) == 0xbc_e508 && scalar::exponent(c as nat) == 59);
    accuracy::lemma_pattern(c, 90);
    rounding::lemma_pow2_sum(64, 26);
    rounding::lemma_pow2_sum(24, 2);
    let (p, x) = (pow2(90), accuracy::exact(Scalar::of_bits(c)));
    assert(p == 0x1_0000_0000_0000_0000 * 0x400_0000);
    let k = p as real;
    assert(x * k == 0xbc_e508 as real);
    assert(k == 1237940039285380274899124224int as real);
}

/// The drift of the energy is its change over the baseline, up to rounding, and is
/// called good below a thousandth, fair below a hundredth and poor above.
pub proof fn law_drift_is_the_relative_change(base: Scalar, energy: Scalar)
    requires
        accuracy::positive(base),
        10_000_000_000 as real * (10_000_000_000 as real * accuracy::exact(base)) >= 2 as real,
        energy.is_finite(),
        energy.minus(base).is_finite(),
        energy.minus(base).over(base).is_finite(),
    ensures
        ({
            let r = ui::energy_drift_spec(Some(base), energy);
            let (b, d) = (accuracy::exact(base), accuracy::exact(energy) - accuracy::exact(base));
            let (drift, level) = r->0;
            let wanted = d / b;
            &&& r is Some
            &&& accuracy::within(
                accuracy::exact(drift),
                wanted,
                4 as real * (accuracy::step() * torus::size(wanted)) + accuracy::unit(),
            )
            &&& 1000 as real * torus::size(wanted) <= 999 as real / 1000 as real ==> level
                == DriftLevel::Good
            &&& 1000 as real * torus::size(wanted) >= 1001 as real / 1000 as real ==> level
                != DriftLevel::Good
            &&& 100 as real * torus::size(wanted) <= 999 as real / 1000 as real ==> level
                != DriftLevel::Poor
            &&& 100 as real * torus::size(wanted) >= 1001 as real / 1000 as real ==> level
                == DriftLevel::Poor
        }),
        ui::energy_drift_spec(None, energy) is None,
{
    lemma_drift_constants();
    lemma_unit();
    accuracy::lemma_step();
    accuracy::lemma_positive(base);
    signed::lemma_finite(base);
    assert(base.abs() == base);
    let none = Scalar::of_bits(sim::NO_ENERGY);
    accuracy::lemma_exact_order(none, base);
    let change = energy.minus(base);
    let drift = change.over(base);
    signed::lemma_difference(energy, base);
    signed::lemma_quotient(change, base);
    let (b, d, c) = (
        accuracy::exact(base),
        accuracy::exact(energy) - accuracy::exact(base),
        accuracy::exact(change),
    );
    let (e, u) = (accuracy::step(), accuracy::unit());
    let (w, v) = (d / b, c / b);
    // c / b against d / b.
    let s = torus::size(d);
    assert(torus::size(w) == s / b) by {
        assert((-d) / b == -(d / b) && (d >= 0 as real ==> d / b >= 0 as real) && (d
            <= 0 as real ==> d / b <= 0 as real)) by (nonlinear_arith)
            requires
                b > 0 as real,
        ;
        if d < 0 as real {
            signed::lemma_zero_size(w);
        }
    }
    let t = torus::size(w);
    assert(accuracy::within(v, w, e * t)) by {
        assert(c / b - d / b == (c - d) / b && (e * s) / b == e * (s / b)) by (nonlinear_arith)
            requires
                b > 0 as real,
        ;
        lemma_quotient_order(c - d, e * s, b);
        lemma_quotient_order(-(e * s), c - d, b);
        assert((-(e * s)) / b == -((e * s) / b)) by (nonlinear_arith)
            requires
                b > 0 as real,
        ;
    }
    lemma_share(t);
    accuracy::lemma_order(torus::size(v), 2 as real * t, e);
    assert(e * (2 as real * t) == 2 as real * (e * t)) by (nonlinear_arith);
    // Thresholds.
    signed::lemma_finite(drift);
    let (good, fair) = (Scalar::of_bits(ui::GOOD_DRIFT), Scalar::of_bits(ui::FAIR_DRIFT));
    accuracy::lemma_exact_order(drift.abs(), good);
    accuracy::lemma_exact_order(drift.abs(), fair);
}

proof fn lemma_quotient_order(x: real, y: real, b: real)
    requires
        x <= y,
        b > 0 as real,
    ensures
        x / b <= y / b,
{
    assert(x / b <= y / b) by (nonlinear_arith)
        requires
            x <= y,
            b > 0 as real,
    ;
}

/// The baseline of the energy is given up where bubbles were stamped in, taken from
/// the first energy that is not zero once none are to come, and kept otherwise.
pub proof fn law_baseline_waits_for_the_last_bubble(
    baseline: Option<Scalar>,
    remaining: usize,
    energy: Scalar,
)
    requires
        energy.is_finite(),
    ensures
        ui::next_baseline_spec(baseline, true, remaining, energy) is None,
        baseline is Some ==> ui::next_baseline_spec(baseline, false, remaining, energy) == baseline,
        baseline is None && remaining > 0 ==> ui::next_baseline_spec(
            baseline,
            false,
            remaining,
            energy,
        ) is None,
        baseline is None && remaining == 0 && accuracy::exact(energy) != 0 as real
            ==> ui::next_baseline_spec(baseline, false, remaining, energy) == Some(energy),
        baseline is None && accuracy::exact(energy) == 0 as real ==> ui::next_baseline_spec(
            baseline,
            false,
            remaining,
            energy,
        ) is None,
{
    lemma_small_numbers();
    lemma_compares(energy, Scalar::of_bits(ZERO));
}

/// A seed below the critical radius collapses, one within a twentieth above it is
/// undecided, a larger one grows; it is unresolved below the width of the wall, and
/// the wall is thick where the critical radius is below three of it.
pub proof fn law_seeds_are_judged_by_their_radius(model: Model)
    requires
        accuracy::counts(model.seed_radius()),
        accuracy::positive(model.critical_radius()),
        accuracy::exact(model.critical_radius()) <= 1_000_000_000 as real,
        1_000_000_000 as real * accuracy::exact(model.critical_radius()) >= 1 as real,
        accuracy::counts(model.wall_width()),
        accuracy::counts(model.critical_to_wall_ratio()),
    ensures
        ({
            let w = ui::seed_warnings_spec(&model);
            let (r, c) = (
                accuracy::exact(model.seed_radius()),
                accuracy::exact(model.critical_radius()),
            );
            &&& w.fate == SeedFate::Collapses <==> r < c
            &&& r >= c && 10_000 as real * r <= 10_499 as real * c ==> w.fate == SeedFate::Undecided
            &&& 10_000 as real * r >= 10_501 as real * c ==> w.fate == SeedFate::Grows
            &&& w.unresolved <==> r < accuracy::exact(model.wall_width())
            &&& w.thick_wall <==> accuracy::exact(model.critical_to_wall_ratio()) < 3 as real
        }),
{
    lemma_small_numbers();
    let (r0, rc) = (model.seed_radius(), model.critical_radius());
    let near = Scalar::of_bits(ui::NEAR_CRITICAL);
    lemma2_to64();
    assert(scalar::significand(ui::NEAR_CRITICAL as nat) == 0x86_6666 && scalar::exponent(
        ui::NEAR_CRITICAL as nat,
    ) == 126);
    accuracy::lemma_pattern(ui::NEAR_CRITICAL, 23);
    let k = accuracy::exact(near);
    assert(k * 0x80_0000 as real == 0x86_6666 as real);
    accuracy::lemma_positive(rc);
    let c = accuracy::exact(rc);
    accuracy::lemma_near_itself(k);
    accuracy::lemma_near_itself(c);
    accuracy::lemma_positive_product(k, c);
    assert(k * c == (0x86_6666 as real * c) / 0x80_0000 as real) by (nonlinear_arith)
        requires
            k * 0x80_0000 as real == 0x86_6666 as real,
    ;
    accuracy::lemma_order(2_000_000_000 as real, accuracy::wide(), k * c);
    accuracy::lemma_times_of(near, k, 0, rc, c, 0);
    let t = near.times(rc);
    accuracy::lemma_near_within(accuracy::exact(t), k * c, 3);
    lemma_share(k * c);
    accuracy::lemma_exact_order(r0, rc);
    accuracy::lemma_exact_order(r0, t);
    accuracy::lemma_exact_order(r0, model.wall_width());
    accuracy::lemma_exact_order(model.critical_to_wall_ratio(), Scalar::of_bits(THREE));
}

/// The wall is called thin below three cells.
pub proof fn law_thin_walls_are_below_three_cells(model: Model)
    requires
        model.wall_width().is_finite(),
    ensures
        ui::wall_is_thin(&model) <==> accuracy::exact(model.wall_width()) < 3 as real,
{
    lemma_small_numbers();
    lemma_volume_constants();
    accuracy::lemma_positive(Scalar::of_bits(THREE));
    lemma_compares(model.wall_width(), Scalar::of_bits(THREE));
}

/// Switching how the seed is given changes nothing else, does nothing where it is given
/// that way already, and a factor that it makes is one the panel offers: from a fifth
/// to six.
pub proof fn law_switched_factor_is_on_offer(model: Model, r: Scalar)
    requires
        model.seed_size == SeedSize::Cells(r),
        !ui::in_critical_radii(&model, r).is_nan(),
    ensures
        ui::switched_seed(model, false) == model.seed_size,
        ui::switched_seed(model, true) matches SeedSize::Critical(k) && {
            &&& 10_000_000 as real * accuracy::exact(k) >= 1_999_999 as real
            &&& accuracy::exact(k) <= 6 as real
            &&& ui::switched_seed(
                Model { seed_size: SeedSize::Critical(k), ..model },
                true,
            ) == SeedSize::Critical(k)
        },
{
    let (low, high) = (Scalar::of_bits(ui::LEAST_FACTOR), Scalar::of_bits(scalar::SIX));
    lemma2_to64();
    accuracy::lemma_constants();
    accuracy::lemma_constant(scalar::SIX, 6, 1);
    assert(accuracy::exact(high) == 6 as real);
    let bits = ui::LEAST_FACTOR;
    assert(scalar::significand(bits as nat) == 0xcc_cccd && scalar::exponent(bits as nat) == 123);
    accuracy::lemma_pattern(bits, 26);
    rounding::lemma_pow2_sum(24, 2);
    assert(accuracy::exact(low) * 0x400_0000 as real == 0xcc_cccd as real);
    let x = ui::in_critical_radii(&model, r);
    let k = x.clamp(low, high);
    accuracy::lemma_positive(low);
    accuracy::lemma_positive(high);
    if x.is_finite() {
        lemma_compares(x, low);
        lemma_compares(high, x);
    } else {
        scalar::lemma_units_order(low.magnitude(), x.magnitude());
        scalar::lemma_units_order(high.magnitude(), x.magnitude());
        assert(k == low || k == high);
    }
}

/// The axes that the sliders leave are within what is on offer, those that were so
/// already stay, and edited together all three are equal.
pub proof fn law_sliders_stay_within_what_is_on_offer(state: UiState, side: u32, max_axis: u32, a: int)
    requires
        max_axis >= 8,
        0 <= a < 3,
    ensures
        ({
            let g = ui::settled(state, side, max_axis);
            let wanted = if state.lattice_cubic {
                side
            } else {
                state.lattice[a]
            };
            &&& 8 <= g[a] <= max_axis
            &&& 8 <= wanted <= max_axis ==> g[a] == wanted
            &&& wanted < 8 ==> g[a] == 8
            &&& wanted > max_axis ==> g[a] == max_axis
            &&& state.lattice_cubic ==> g[0] == g[1] && g[1] == g[2]
        }),
{
}

/// A selected lattice takes ninety-six bytes for each cell; it exceeds the device above its
/// capacity, and is close above four fifths of the budget.
pub proof fn law_selection_is_judged_by_its_memory(lattice: [u32; 3], info: SimInfo)
    requires
        96 * sim::cells(lattice) <= u64::MAX,
    ensures
        ({
            let s = ui::selection_of(lattice, info);
            &&& s.cells == sim::cells(lattice)
            &&& s.bytes == 96 * s.cells
            &&& s.changed <==> lattice != info.grid
            &&& info.vram is None ==> s.warning == MemoryWarning::Fine && !s.optimistic
            &&& info.vram matches Some(v) ==> {
                &&& s.warning == MemoryWarning::Exceeds <==> s.bytes > v.capacity
                &&& s.warning == MemoryWarning::Close <==> s.bytes <= v.capacity && 5 * s.bytes > 4
                    * ui::budget_of(info)->0
                &&& s.optimistic <==> v.budget is None || v.used is None
            }
        }),
{
}

// ---------------------------------------------------------------------------
//  Frame timing
// ---------------------------------------------------------------------------

/// What durations add up to.
pub open spec fn duration(times: Seq<Scalar>) -> real
    decreases times.len(),
{
    if times.len() == 0 {
        0 as real
    } else {
        duration(times.drop_last()) + accuracy::exact(times.last())
    }
}

/// Whether every duration is one that frames have, from a microsecond to a
/// quarter of an hour.
pub open spec fn plausible(times: Seq<Scalar>) -> bool {
    forall|i: int|
        0 <= i < times.len() ==> accuracy::positive(#[trigger] times[i]) && accuracy::exact(
            times[i],
        ) <= 1000 as real && 1_000_000 as real * accuracy::exact(times[i]) >= 1 as real
}

proof fn lemma_total(times: Seq<Scalar>)
    requires
        plausible(times),
        times.len() <= 64,
    ensures
        accuracy::counts(session::total(times)),
        times.len() > 0 ==> accuracy::positive(session::total(times)),
        1_000_000 as real * duration(times) >= times.len() as real,
        duration(times) <= 1000 as real * times.len() as real,
        accuracy::within(
            accuracy::exact(session::total(times)),
            duration(times),
            (2 * times.len()) as real * (accuracy::step() * duration(times)),
        ),
    decreases times.len(),
{
    accuracy::lemma_step();
    if times.len() == 0 {
        lemma_small_numbers();
        assert(accuracy::step() * 0 as real == 0 as real) by (nonlinear_arith);
    } else {
        let front = times.drop_last();
        let x = times.last();
        assert(x == times[times.len() - 1]);
        assert forall|i: int| 0 <= i < front.len() implies accuracy::positive(#[trigger] front[i])
            && accuracy::exact(front[i]) <= 1000 as real && 1_000_000 as real * accuracy::exact(
            front[i],
        ) >= 1 as real by {
            assert(front[i] == times[i]);
        }
        lemma_total(front);
        let n = times.len();
        let a = session::total(front);
        accuracy::lemma_positive(x);
        accuracy::lemma_counts(a);
        let (t, d, y) = (accuracy::exact(a), duration(front), accuracy::exact(x));
        let e = accuracy::step();
        let k = (2 * front.len()) as real;
        lemma_share(d);
        accuracy::lemma_order(k, 126 as real, e * d);
        lemma_far();
        accuracy::lemma_plus_in_range(a, x);
        let s = a.plus(x);
        accuracy::lemma_near_within(accuracy::exact(s), t + y, 1);
        lemma_share(t + y);
        // t + y is at most twice d + y.
        let w = d + y;
        accuracy::lemma_order(t + y, 2 as real * w, e);
        accuracy::lemma_order(d, w, e);
        accuracy::lemma_order(e * d, e * w, k);
        assert(e * (2 as real * w) == 2 as real * (e * w)) by (nonlinear_arith);
        assert((2 * n) as real == k + 2 as real);
        assert((k + 2 as real) * (e * w) == k * (e * w) + 2 as real * (e * w)) by (nonlinear_arith);
        assert(s.bits > 0) by {
            if s.bits == 0 {
                lemma_small_numbers();
                assert(s == Scalar::of_bits(ZERO));
            }
        }
    }
}

proof fn lemma_far()
    ensures
        accuracy::far() >= 1_000_000_000 as real,
{
    lemma2_to64();
    lemma_pow2_strictly_increases(32, 100);
}

/// What the panel says of frame times is about the last sixty-four frames: the mean in
/// milliseconds times the frames is what they took in all, the rate is one over the
/// mean, and the worst is the longest of them, up to rounding.
pub proof fn law_timing_is_the_mean_of_the_window(ui: UiState, times: Seq<Scalar>)
    requires
        plausible(times),
        1 <= times.len() <= 64,
    ensures
        ({
            let t = session::timed(ui, times);
            let (ms, fps) = (accuracy::exact(t.frame_ms), accuracy::exact(t.fps));
            let n = times.len() as real;
            let sum = duration(times);
            &&& accuracy::within(ms * n, 1000 as real * sum, sum / 10 as real)
            &&& accuracy::within(fps * sum, n, n / 10_000 as real)
            &&& exists|i: int|
                0 <= i < times.len() && accuracy::near(
                    accuracy::exact(t.frame_ms_max),
                    1000 as real * accuracy::exact(#[trigger] times[i]),
                    3,
                )
            &&& forall|i: int|
                0 <= i < times.len() ==> accuracy::exact(t.frame_ms_max) >= 999 as real
                    * accuracy::exact(#[trigger] times[i])
            &&& t.running == ui.running && t.steps_per_frame == ui.steps_per_frame
        }),
{
    let a = session::total(times);
    lemma_total(times);
    lemma_small_numbers();
    let k = times.len() as u64;
    let c = Scalar::of_integer(k);
    accuracy::lemma_integer_near(k);
    accuracy::lemma_positive(a);
    let (t, d, n) = (accuracy::exact(a), duration(times), times.len() as real);
    let e = accuracy::step();
    lemma_share(d);
    accuracy::lemma_order((2 * times.len()) as real, 128 as real, e * d);
    // The mean.
    let m = session::mean(times);
    accuracy::lemma_near_itself(t);
    accuracy::lemma_quotient_back(t, n);
    let w = t / n;
    lemma_mean_in_range(t, n);
    accuracy::lemma_over_of(a, t, 0, c, n, 1);
    accuracy::lemma_positive(m);
    let x = accuracy::exact(m);
    // Milliseconds.
    let milli = Scalar::of_bits(session::MILLI);
    lemma_milli();
    accuracy::lemma_near_itself(1000 as real);
    accuracy::lemma_times_of(m, w, 4, milli, 1000 as real, 0);
    let y = accuracy::exact(m.times(milli));
    let p = w * 1000 as real;
    accuracy::lemma_near_itself(n);
    accuracy::lemma_near_product(y, p, 7, n, n, 0);
    assert(p * n == 1000 as real * t) by (nonlinear_arith)
        requires
            p == w * 1000 as real,
            w * n == t,
    ;
    accuracy::lemma_near_within(y * n, 1000 as real * t, 8);
    lemma_share(1000 as real * t);
    // Frames per second.
    let one = Scalar::of_bits(ONE);
    lemma_compares(Scalar::of_bits(ZERO), m);
    accuracy::lemma_near_itself(1 as real);
    accuracy::lemma_quotient_back(1 as real, w);
    lemma_rate_in_range(w);
    accuracy::lemma_over_of(one, 1 as real, 0, m, w, 4);
    let f = accuracy::exact(one.over(m));
    accuracy::lemma_positive(one.over(m));
    let r = 1 as real / w;
    accuracy::lemma_near_product(f, r, 7, t, t, 0);
    assert(r * t == n) by (nonlinear_arith)
        requires
            r * w == 1 as real,
            w * n == t,
    ;
    accuracy::lemma_near_within(f * t, n, 8);
    lemma_share(n);
    // t against d.
    lemma_rate_against(f, t, d, n);
    // The longest.
    let i = lemma_worst(times);
    let (q, b) = (times[i], accuracy::exact(times[i]));
    accuracy::lemma_positive(q);
    accuracy::lemma_near_itself(b);
    accuracy::lemma_order(1_000_000 as real, accuracy::wide(), b * 1000 as real);
    accuracy::lemma_times_of(q, b, 0, milli, 1000 as real, 0);
    accuracy::lemma_near_within(accuracy::exact(q.times(milli)), b * 1000 as real, 3);
    lemma_share(b * 1000 as real);
    assert forall|j: int| 0 <= j < times.len() implies accuracy::exact(
        session::timed(ui, times).frame_ms_max,
    ) >= 999 as real * accuracy::exact(#[trigger] times[j]) by {
        accuracy::lemma_positive(times[j]);
    }
}

/// The longest of the durations is one of them, and none is longer.
proof fn lemma_worst(times: Seq<Scalar>) -> (i: int)
    requires
        plausible(times),
        times.len() > 0,
    ensures
        0 <= i < times.len(),
        session::worst(times) == times[i],
        forall|j: int|
            0 <= j < times.len() ==> accuracy::exact(#[trigger] times[j]) <= accuracy::exact(
                times[i],
            ),
    decreases times.len(),
{
    let front = times.drop_last();
    let n = times.len() - 1;
    assert(accuracy::positive(times[n]));
    accuracy::lemma_positive(times[n]);
    lemma_small_numbers();
    if front.len() == 0 {
        lemma_compares(Scalar::of_bits(ZERO), times[n]);
        assert(session::worst(front) == Scalar::of_bits(ZERO));
        n
    } else {
        assert forall|i: int| 0 <= i < front.len() implies accuracy::positive(#[trigger] front[i])
            && accuracy::exact(front[i]) <= 1000 as real && 1_000_000 as real * accuracy::exact(
            front[i],
        ) >= 1 as real by {
            assert(front[i] == times[i]);
        }
        let i = lemma_worst(front);
        assert(accuracy::positive(front[i]));
        accuracy::lemma_positive(front[i]);
        lemma_compares(front[i], times[n]);
        assert forall|j: int| 0 <= j < times.len() implies accuracy::exact(#[trigger] times[j])
            <= if accuracy::exact(front[i]) < accuracy::exact(times[n]) {
            accuracy::exact(times[n])
        } else {
            accuracy::exact(front[i])
        } by {
            if j < n {
                assert(front[j] == times[j]);
            }
        }
        if accuracy::exact(front[i]) < accuracy::exact(times[n]) {
            n
        } else {
            i
        }
    }
}

/// Frames per second against the exact duration.
proof fn lemma_rate_against(f: real, t: real, d: real, n: real)
    requires
        accuracy::within(f * t, n, n / 100_000 as real),
        accuracy::within(t, d, d / 50_000 as real),
        d > 0 as real,
        n > 0 as real,
        f >= 0 as real,
    ensures
        accuracy::within(f * d, n, n / 10_000 as real),
{
    let (a, b) = (t - d / 50_000 as real, t + d / 50_000 as real);
    accuracy::lemma_order(t, d + d / 50_000 as real, f);
    accuracy::lemma_order(d - d / 50_000 as real, t, f);
    assert(f * (d + d / 50_000 as real) == f * d + (f * d) / 50_000 as real && f * (d - d
        / 50_000 as real) == f * d - (f * d) / 50_000 as real) by (nonlinear_arith);
}

proof fn lemma_mean_in_range(t: real, n: real)
    requires
        n >= 1 as real,
        n <= 64 as real,
        2_000_000 as real * t >= n,
        t <= 100_000 as real,
    ensures
        accuracy::moderate(t / n),
        2_000_000 as real * (t / n) >= 1 as real,
        t / n <= 100_000 as real,
        accuracy::moderate((t / n) * 1000 as real),
{
    let w = t / n;
    accuracy::lemma_quotient_back(t, n);
    if w > 100_000 as real {
        accuracy::lemma_order(1 as real, n, w);
    }
    let k = 2_000_000 as real;
    if k * w < 1 as real {
        accuracy::lemma_order(k * w, 1 as real, n);
        assert((k * w) * n == k * (w * n) && (k * w) * n < n) by (nonlinear_arith)
            requires
                k * w < 1 as real,
                n > 0 as real,
        ;
    }
    accuracy::lemma_order(k, accuracy::wide(), w);
    accuracy::lemma_order(k, accuracy::wide(), w * 1000 as real);
}

proof fn lemma_rate_in_range(w: real)
    requires
        w > 0 as real,
        2_000_000 as real * w >= 1 as real,
        w <= 100_000 as real,
    ensures
        accuracy::moderate(1 as real / w),
{
    let r = 1 as real / w;
    accuracy::lemma_quotient_back(1 as real, w);
    let k = 2_000_000 as real;
    assert(r <= k) by (nonlinear_arith)
        requires
            r * w == 1 as real,
            k * w >= 1 as real,
            w > 0 as real,
    ;
    assert(100_000 as real * r >= 1 as real) by (nonlinear_arith)
        requires
            r * w == 1 as real,
            w <= 100_000 as real,
            r > 0 as real,
    ;
    accuracy::lemma_order(100_000 as real, accuracy::wide(), r);
}

proof fn lemma_milli()
    ensures
        accuracy::positive(Scalar::of_bits(session::MILLI)),
        accuracy::exact(Scalar::of_bits(session::MILLI)) == 1000 as real,
{
    lemma2_to64();
    let bits = session::MILLI;
    assert(scalar::significand(bits as nat) == 0xfa_0000 && scalar::exponent(bits as nat) == 135);
    accuracy::lemma_pattern(bits, 14);
    let x = accuracy::exact(Scalar::of_bits(bits));
    assert(x * 0x4000 as real == 0xfa_0000 as real);
}

} // verus!
