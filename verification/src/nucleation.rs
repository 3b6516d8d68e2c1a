//! Where and when bubbles appear, as numbers, and which models are accepted.

use vstd::arithmetic::power2::*;
use vstd::prelude::*;

use crate::accuracy;
use crate::physics;
use crate::physics::{BubbleEvent, Model, NucleationMode, SeedSize};
use crate::random;
use crate::rounding;
use crate::scalar;
use crate::scalar::{Scalar, FOUR, HALF, ONE, ZERO};
use crate::torus;

verus! {

// ---------------------------------------------------------------------------
//  Places
// ---------------------------------------------------------------------------

/// The leading 24 bits of a word, as a share of all that they can be, are the
/// uniform number, up to rounding.
pub proof fn law_uniform_numbers_are_the_leading_bits(word: u32)
    ensures
        ({
            let share = ((word / 256) as real) / (0x100_0000int as real);
            &&& accuracy::counts(physics::uniform(word))
            &&& accuracy::within(
                accuracy::exact(physics::uniform(word)),
                share,
                2 as real * (accuracy::step() * share) + accuracy::unit(),
            )
        }),
{
    let k = (word / 256) as u64;
    let step = Scalar::of_bits(physics::UNIFORM_STEP);
    let x = Scalar::of_integer(k);
    lemma2_to64();
    rounding::lemma_pow2_sum(24, 125);
    rounding::lemma_pow2_sum(23, 102);
    assert(scalar::significand(physics::UNIFORM_STEP as nat) == 0x80_0000 && scalar::exponent(
        physics::UNIFORM_STEP as nat,
    ) == 102);
    assert(scalar::one_units() == 0x100_0000 * pow2(125));
    accuracy::lemma_constant(physics::UNIFORM_STEP, 1, 0x100_0000);
    let u = physics::uniform(word);
    lemma_whole(k);
    assert(u.is_finite()) by {
        physics::lemma_coordinate_bounded(word, 1);
    }
    accuracy::lemma_times_within(step, x);
    let (d, n) = (1int as real / 0x100_0000int as real, k as real);
    assert(d * n == n / 0x100_0000int as real);
    accuracy::lemma_step();
    accuracy::lemma_order(0 as real, n / 0x100_0000int as real, accuracy::step());
}

/// A whole number below `2^24` is exact.
pub proof fn lemma_whole(k: u64)
    requires
        k < 0x100_0000,
    ensures
        accuracy::counts(Scalar::of_integer(k)),
        accuracy::exact(Scalar::of_integer(k)) == k as real,
{
    let x = Scalar::of_integer(k);
    scalar::lemma_of_integer(k);
    lemma_pow2_pos(149);
    assert(x.bits == x.magnitude());
    let (z, v) = (scalar::one_units(), x.value());
    let (a, b) = (z as real, k as real);
    assert(v as real == b * a) by (nonlinear_arith)
        requires
            v == k * z,
            a == z as real,
            b == k as real,
    ;
    assert((b * a) / a == b) by (nonlinear_arith)
        requires
            a > 0 as real,
    ;
}

/// A draw takes a word for each axis, in order, and places the bubble at that share
/// of the side, up to rounding.
pub proof fn law_draws_take_a_word_for_each_axis(words: Map<nat, u32>, at: nat, grid: [u32; 3])
    ensures
        ({
            let pos = physics::position(words, at, grid);
            &&& lies_at(pos[0], words[at], grid[0])
            &&& lies_at(pos[1], words[at + 1], grid[1])
            &&& lies_at(pos[2], words[at + 2], grid[2])
        }),
{
    lemma_lies_at(words[at], grid[0]);
    lemma_lies_at(words[at + 1], grid[1]);
    lemma_lies_at(words[at + 2], grid[2]);
}

/// Whether a coordinate is the uniform number of a word times the side, up to
/// rounding.
pub open spec fn lies_at(x: Scalar, word: u32, side: u32) -> bool {
    let wanted = accuracy::exact(physics::uniform(word)) * side as real;
    accuracy::within(
        accuracy::exact(x),
        wanted,
        4 as real * (accuracy::step() * wanted) + accuracy::unit(),
    )
}

proof fn lemma_lies_at(word: u32, side: u32)
    ensures
        lies_at(physics::uniform(word).times(Scalar::of_integer(side as u64)), word, side),
{
    law_uniform_numbers_are_the_leading_bits(word);
    let u = physics::uniform(word);
    let n = Scalar::of_integer(side as u64);
    let x = u.times(n);
    accuracy::lemma_step();
    accuracy::lemma_counts(u);
    let (a, t, e) = (accuracy::exact(u), side as real, accuracy::step());
    if side == 0 {
        lemma_whole(0);
        lemma_zero_times(u, n);
        assert(a * 0 as real == 0 as real);
        assert(accuracy::exact(x) == 0 as real);
        assert(e * (a * t) == 0 as real) by (nonlinear_arith)
            requires
                a * t == 0 as real,
        ;
        accuracy::lemma_counts(u);
    } else {
        accuracy::lemma_integer_near(side as u64);
        accuracy::lemma_positive(n);
        assert(x.is_finite()) by {
            physics::lemma_coordinate_bounded(word, side);
        }
        accuracy::lemma_times_within(u, n);
        let b = accuracy::exact(n);
        accuracy::lemma_near_within(b, t, 1);
        // a b is a t up to a step.
        let w = a * t;
        accuracy::lemma_order(b, t + e * t, a);
        accuracy::lemma_order(t - e * t, b, a);
        assert(a * (t + e * t) == w + e * w && a * (t - e * t) == w - e * w) by (nonlinear_arith)
            requires
                w == a * t,
        ;
        accuracy::lemma_order(0 as real, t, a);
        accuracy::lemma_order(0 as real, w, e);
        lemma_share(w);
        accuracy::lemma_order(a * b, 2 as real * w, e);
        assert(e * (2 as real * w) == 2 as real * (e * w)) by (nonlinear_arith);
    }
}

/// A step is a small share.
proof fn lemma_share(x: real)
    ensures
        0x80_0000 as real * (accuracy::step() * x) == x,
{
    accuracy::lemma_step();
    let e = accuracy::step();
    assert(0x80_0000 as real * (e * x) == x) by (nonlinear_arith)
        requires
            0x80_0000 as real * e == 1 as real,
    ;
}

/// Whatever is multiplied by zero stands for zero.
proof fn lemma_zero_times(a: Scalar, n: Scalar)
    requires
        accuracy::counts(a),
        n.bits == 0 || accuracy::exact(n) == 0 as real,
        accuracy::counts(n),
    ensures
        accuracy::exact(a.times(n)) == 0 as real,
{
    reveal(Scalar::times_spec);
    accuracy::lemma_counts(a);
    accuracy::lemma_counts(n);
    scalar::lemma_units_zero(0);
    let z = scalar::one_units();
    let (u, v) = (scalar::units(a.bits as nat), scalar::units(n.bits as nat));
    let (x, w) = (v as real, z as real);
    assert(v == 0) by {
        if v > 0 && n.bits != 0 {
            accuracy::lemma_quotient_back(x, w);
        }
    }
    assert(u * v == 0) by (nonlinear_arith)
        requires
            v == 0,
    ;
    scalar::lemma_round_bounded(0, z, 0);
    scalar::lemma_signed(false, 0);
    assert(0 as real / w == 0 as real) by (nonlinear_arith)
        requires
            w > 0 as real,
    ;
}

/// A bubble is placed at the first of sixty-four draws that is clear of the bubbles
/// before it, else at the last of them.
pub proof fn law_first_clear_draw_is_kept(
    words: Map<nat, u32>,
    at: nat,
    earlier: Seq<BubbleEvent>,
    grid: [u32; 3],
    radius: Scalar,
)
    ensures
        exists|i: nat|
            #![trigger physics::position(words, at + 3 * i, grid)]
            {
                &&& i < 64
                &&& physics::placement(words, at, 0, earlier, grid, radius) == (
                    physics::position(words, at + 3 * i, grid),
                    at + 3 * i + 3,
                )
                &&& i == 63 || physics::clear_of(
                    physics::position(words, at + 3 * i, grid),
                    earlier,
                    grid,
                    radius,
                )
                &&& forall|j: nat|
                    j < i ==> !physics::clear_of(
                        #[trigger] physics::position(words, at + 3 * j, grid),
                        earlier,
                        grid,
                        radius,
                    )
            },
{
    let i = lemma_kept_draw(words, at, 0, earlier, grid, radius);
    let pos = physics::position(words, at + 3 * i, grid);
    assert(i < 64);
}

proof fn lemma_kept_draw(
    words: Map<nat, u32>,
    at: nat,
    attempt: nat,
    earlier: Seq<BubbleEvent>,
    grid: [u32; 3],
    radius: Scalar,
) -> (i: nat)
    requires
        attempt < 64,
    ensures
        attempt + i < 64,
        physics::placement(words, at, attempt, earlier, grid, radius) == (
            physics::position(words, at + 3 * i, grid),
            at + 3 * i + 3,
        ),
        attempt + i == 63 || physics::clear_of(
            physics::position(words, at + 3 * i, grid),
            earlier,
            grid,
            radius,
        ),
        forall|j: nat|
            j < i ==> !physics::clear_of(
                #[trigger] physics::position(words, at + 3 * j, grid),
                earlier,
                grid,
                radius,
            ),
    decreases 64 - attempt,
{
    let pos = physics::position(words, at, grid);
    if attempt == 63 || physics::clear_of(pos, earlier, grid, radius) {
        0
    } else {
        let i = lemma_kept_draw(words, at + 3, attempt + 1, earlier, grid, radius);
        assert((at + 3) + 3 * i == at + 3 * (i + 1));
        assert forall|j: nat| j < i + 1 implies !physics::clear_of(
            #[trigger] physics::position(words, at + 3 * j, grid),
            earlier,
            grid,
            radius,
        ) by {
            if j > 0 {
                let k = (j - 1) as nat;
                assert((at + 3) + 3 * k == at + 3 * j);
                assert(!physics::clear_of(
                    physics::position(words, (at + 3) + 3 * k, grid),
                    earlier,
                    grid,
                    radius,
                ));
            }
        }
        i + 1
    }
}

/// The first bubble of a schedule is where the first three words of its seed put it.
pub proof fn law_first_bubble_takes_the_first_words(
    mode: NucleationMode,
    count: nat,
    radius: Scalar,
    grid: [u32; 3],
    duration: Scalar,
    logs: Seq<Scalar>,
    seed: u64,
)
    requires
        count > 0,
        accuracy::positive(duration),
        mode == NucleationMode::Exponential ==> physics::logs_in_order(logs, count),
    ensures
        physics::schedule(mode, count, radius, grid, duration, logs, seed)[0].pos
            == physics::position(random::seeded_words(seed), 0, grid),
{
    let words = random::seeded_words(seed);
    scalar::lemma_units_zero(0);
    accuracy::lemma_positive(duration);
    physics::law_schedule_holds_bubbles_as_drawn(
        mode,
        count,
        radius,
        grid,
        duration,
        logs,
        seed,
    );
    let a = (mode, duration, logs);
    physics::law_places_depend_on_the_seed_alone(a, 1, a, count, radius, grid, words);
    let one = physics::drawn_events(mode, 1, radius, grid, duration, logs, words).0;
    let none = physics::drawn_events(mode, 0, radius, grid, duration, logs, words).0;
    assert(none.len() == 0);
    assert(physics::clear_of(physics::position(words, 0, grid), none, grid, radius));
    assert(one[0].pos == physics::position(words, 0, grid));
}

// ---------------------------------------------------------------------------
//  Times
// ---------------------------------------------------------------------------

/// The number whose logarithm places bubble `k` of `count` in time: for a rate that
/// grows by the factor `growth`, one plus the share of bubbles before the middle of
/// this one, times the growth beyond one.
pub proof fn law_bubbles_are_even_in_the_growing_rate(k: usize, count: usize, growth: Scalar)
    requires
        k < count,
        accuracy::positive(growth),
        accuracy::exact(growth) >= 1 as real + 1 as real / 1000 as real,
        accuracy::exact(growth) <= 1_000_000 as real,
    ensures
        ({
            let share = (k as real + 1 as real / 2 as real) / count as real;
            let wanted = 1 as real + share * (accuracy::exact(growth) - 1 as real);
            accuracy::near(
                accuracy::exact(physics::rate_argument(k, count, growth)),
                wanted,
                20,
            )
        }),
{
    let (one, half) = (Scalar::of_bits(ONE), Scalar::of_bits(HALF));
    accuracy::lemma_constants();
    accuracy::lemma_constant(ONE, 1, 1);
    accuracy::lemma_constant(HALF, 1, 2);
    accuracy::lemma_positive(one);
    accuracy::lemma_positive(half);
    accuracy::lemma_positive(growth);
    assert(accuracy::exact(one) == 1 as real && accuracy::exact(half) == 1 as real / 2 as real);
    let n = Scalar::of_integer(count as u64);
    accuracy::lemma_integer_near(count as u64);
    // The middle of the bubble.
    let a = Scalar::of_integer(k as u64).plus(half);
    let (x, c) = (k as real + 1 as real / 2 as real, count as real);
    accuracy::lemma_near_itself(1 as real / 2 as real);
    lemma_cells_are_wide();
    if k == 0 {
        lemma_whole(0);
        accuracy::lemma_counts(half);
        lemma_zero_plus(half);
        accuracy::lemma_near_widens(1 as real / 2 as real, 1 as real / 2 as real, 0, 3);
    } else {
        accuracy::lemma_integer_near(k as u64);
        accuracy::lemma_near_widens(1 as real / 2 as real, 1 as real / 2 as real, 0, 1);
        accuracy::lemma_plus_of(
            Scalar::of_integer(k as u64),
            k as real,
            1,
            half,
            1 as real / 2 as real,
            1,
        );
    }
    // Its share.
    let s = x / c;
    lemma_share_in_range(x, c);
    accuracy::lemma_over_of(a, x, 3, n, c, 1);
    let share = a.over(n);
    accuracy::lemma_positive(share);
    // The growth beyond one.
    let g = accuracy::exact(growth) - 1 as real;
    let h = growth.minus(one);
    accuracy::lemma_minus_within(growth, one);
    lemma_near_of_within(accuracy::exact(h), g);
    lemma_positive_bits(h);
    lemma_product_in_range(s, g);
    accuracy::lemma_times_of(share, s, 7, h, g, 1);
    let p = share.times(h);
    accuracy::lemma_positive(p);
    accuracy::lemma_near_itself(1 as real);
    accuracy::lemma_near_widens(1 as real, 1 as real, 0, 11);
    accuracy::lemma_order(s, 1 as real, g);
    accuracy::lemma_plus_of(one, 1 as real, 11, p, s * g, 11);
    accuracy::lemma_near_widens(
        accuracy::exact(one.plus(p)),
        1 as real + s * g,
        13,
        20,
    );
}

/// Nothing plus a number is the number.
proof fn lemma_zero_plus(a: Scalar)
    requires
        accuracy::positive(a),
    ensures
        Scalar::of_integer(0).plus(a) == a,
{
    reveal(Scalar::plus_spec);
    scalar::lemma_of_integer(0);
    lemma_whole(0);
    accuracy::lemma_positive(a);
    let x = Scalar::of_integer(0);
    accuracy::lemma_counts(x);
    assert(x.value() == 0) by {
        scalar::lemma_of_integer(0);
    }
    scalar::lemma_round_exact(a.bits as nat);
    scalar::lemma_signed(false, a.bits as nat);
}

proof fn lemma_cells_are_wide()
    ensures
        accuracy::wide() >= 0x1_0000_0000_0000_0000int as real,
{
}

proof fn lemma_share_in_range(x: real, c: real)
    requires
        2 as real * x >= 1 as real,
        x <= c,
        c <= 0x1_0000_0000_0000_0000int as real,
        c >= 1 as real,
    ensures
        accuracy::moderate(x / c),
        x / c <= 1 as real,
        100_000_000_000_000_000_000 as real * (x / c) >= 1 as real,
{
    let s = x / c;
    accuracy::lemma_quotient_back(x, c);
    if s > 1 as real {
        assert(s * c > c) by (nonlinear_arith)
            requires
                s > 1 as real,
                c > 0 as real,
        ;
    }
    let k = 100_000_000_000_000_000_000 as real;
    if k * s < 1 as real {
        accuracy::lemma_order(k * s, 1 as real, c);
        assert((k * s) * c == k * (s * c)) by (nonlinear_arith);
    }
    accuracy::lemma_order(k, accuracy::wide(), s);
}

proof fn lemma_product_in_range(s: real, g: real)
    requires
        s > 0 as real,
        s <= 1 as real,
        100_000_000_000_000_000_000 as real * s >= 1 as real,
        1000 as real * g >= 1 as real,
        g <= 1_000_000 as real,
    ensures
        accuracy::moderate(s * g),
{
    accuracy::lemma_positive_product(s, g);
    accuracy::lemma_order(s, 1 as real, g);
    let k = 100_000_000_000_000_000_000 as real;
    accuracy::lemma_order(1 as real, k * s, g);
    assert((k * s) * g == k * (s * g)) by (nonlinear_arith);
    accuracy::lemma_order(1000 as real * k, accuracy::wide(), s * g);
    assert((1000 as real * k) * (s * g) == 1000 as real * (k * (s * g))) by (nonlinear_arith);
}

proof fn lemma_near_of_within(x: real, t: real)
    requires
        accuracy::within(x, t, accuracy::step() * t),
    ensures
        accuracy::near(x, t, 1),
{
    let e = accuracy::step();
    assert(t * (1 as real - 1int as real * e) == t - e * t && t * (1 as real + 1int as real * e) == t
        + e * t) by (nonlinear_arith);
}

/// A finite number that stands for something positive is positive.
proof fn lemma_positive_bits(x: Scalar)
    requires
        x.is_finite(),
        accuracy::exact(x) > 0 as real,
    ensures
        accuracy::positive(x),
{
    lemma_pow2_pos(149);
    scalar::lemma_units_zero(0);
    let (v, z) = (x.value() as real, scalar::one_units() as real);
    if x.value() <= 0 {
        assert(v / z <= 0 as real) by (nonlinear_arith)
            requires
                v <= 0 as real,
                z > 0 as real,
        ;
    }
    assert(x.bits == x.magnitude());
}

/// Bubbles that appear together do so at time zero; otherwise bubble `k` appears at
/// a quarter of the duration times its logarithm, up to rounding.
pub proof fn law_bubbles_appear_at_their_time(
    mode: NucleationMode,
    count: nat,
    radius: Scalar,
    grid: [u32; 3],
    duration: Scalar,
    logs: Seq<Scalar>,
    seed: u64,
    k: int,
)
    requires
        0 <= k < count,
        accuracy::positive(duration),
        mode == NucleationMode::Exponential ==> {
            &&& physics::logs_in_order(logs, count)
            &&& accuracy::positive(logs[k])
            &&& accuracy::moderate(accuracy::exact(duration) / 4 as real)
            &&& accuracy::moderate(
                (accuracy::exact(duration) / 4 as real) * accuracy::exact(logs[k]),
            )
        },
    ensures
        ({
            let e = physics::schedule(mode, count, radius, grid, duration, logs, seed)[k];
            let t = accuracy::exact(e.time);
            match mode {
                NucleationMode::Simultaneous => t == 0 as real,
                NucleationMode::Exponential => accuracy::near(
                    t,
                    (accuracy::exact(duration) / 4 as real) * accuracy::exact(logs[k]),
                    6,
                ),
            }
        }),
{
    scalar::lemma_units_zero(0);
    accuracy::lemma_positive(duration);
    physics::law_schedule_holds_bubbles_as_drawn(
        mode,
        count,
        radius,
        grid,
        duration,
        logs,
        seed,
    );
    physics::lemma_drawn_in_box(
        mode,
        count,
        radius,
        grid,
        duration,
        logs,
        random::seeded_words(seed),
    );
    match mode {
        NucleationMode::Simultaneous => {
            lemma_pow2_pos(149);
            let z = scalar::one_units() as real;
            assert(0 as real / z == 0 as real) by (nonlinear_arith)
                requires
                    z > 0 as real,
            ;
        },
        NucleationMode::Exponential => {
            let four = Scalar::of_bits(FOUR);
            lemma2_to64();
            rounding::lemma_pow2_sum(23, 128);
            rounding::lemma_pow2_sum(2, 149);
            assert(scalar::significand(FOUR as nat) == 0x80_0000 && scalar::exponent(FOUR as nat)
                == 128);
            accuracy::lemma_constant(FOUR, 4, 1);
            assert(accuracy::exact(four) == 4 as real);
            let (d, g) = (accuracy::exact(duration), accuracy::exact(logs[k]));
            accuracy::lemma_near_itself(d);
            accuracy::lemma_near_itself(4 as real);
            accuracy::lemma_near_itself(g);
            accuracy::lemma_positive(logs[k]);
            accuracy::lemma_over_of(duration, d, 0, four, 4 as real, 0);
            accuracy::lemma_times_of(duration.over(four), d / 4 as real, 3, logs[k], g, 0);
        },
    }
}

// ---------------------------------------------------------------------------
//  Accepted models
// ---------------------------------------------------------------------------

/// Whether every parameter of a model is finite.
pub open spec fn all_finite(m: Model) -> bool {
    &&& m.lambda.is_finite() && m.eps_ratio.is_finite() && m.alpha.is_finite()
    &&& m.eta.is_finite() && m.phi_b.is_finite() && m.dx.is_finite() && m.cfl.is_finite()
    &&& match m.seed_size {
        SeedSize::Critical(k) => k.is_finite(),
        SeedSize::Cells(r) => r.is_finite(),
    }
}

/// How numbers compare is how what they stand for does.
pub proof fn lemma_compares(a: Scalar, b: Scalar)
    requires
        a.is_finite(),
        b.is_finite(),
    ensures
        a.lt(b) <==> accuracy::exact(a) < accuracy::exact(b),
        a.le(b) <==> accuracy::exact(a) <= accuracy::exact(b),
        a.same(b) <==> accuracy::exact(a) == accuracy::exact(b),
{
    lemma_pow2_pos(149);
    let (x, y, z) = (a.value() as real, b.value() as real, scalar::one_units() as real);
    if a.value() < b.value() {
        assert(x / z < y / z) by (nonlinear_arith)
            requires
                x < y,
                z > 0 as real,
        ;
    } else if a.value() > b.value() {
        assert(x / z > y / z) by (nonlinear_arith)
            requires
                x > y,
                z > 0 as real,
        ;
    }
}

/// Zero, one half and one.
pub proof fn lemma_zero_and_half()
    ensures
        accuracy::exact(Scalar::of_bits(ZERO)) == 0 as real,
        accuracy::exact(Scalar::of_bits(HALF)) == 1 as real / 2 as real,
        accuracy::exact(Scalar::of_bits(ONE)) == 1 as real,
{
    scalar::lemma_units_zero(0);
    lemma_pow2_pos(149);
    let z = scalar::one_units() as real;
    assert(0 as real / z == 0 as real) by (nonlinear_arith)
        requires
            z > 0 as real,
    ;
    accuracy::lemma_constants();
    accuracy::lemma_constant(HALF, 1, 2);
    accuracy::lemma_constant(ONE, 1, 1);
}

/// A model is accepted exactly if the splitting lies between zero and one, coupling,
/// strength and seed are positive, the friction is not negative, and the Courant
/// number is positive and at most one half.
pub proof fn law_models_are_accepted_by_their_ranges(m: Model)
    requires
        all_finite(m),
    ensures
        ({
            let (r, c) = (accuracy::exact(m.eps_ratio), accuracy::exact(m.cfl));
            let seed = match m.seed_size {
                SeedSize::Critical(k) => accuracy::exact(k),
                SeedSize::Cells(x) => accuracy::exact(x),
            };
            physics::model_fault(m) is None <==> {
                &&& r > 0 as real && r < 1 as real
                &&& accuracy::exact(m.lambda) > 0 as real
                &&& accuracy::exact(m.alpha) > 0 as real
                &&& accuracy::exact(m.eta) >= 0 as real
                &&& c > 0 as real && 2 as real * c <= 1 as real
                &&& seed > 0 as real
            }
        }),
{
    lemma_zero_and_half();
    let (zero, half, one) = (
        Scalar::of_bits(ZERO),
        Scalar::of_bits(HALF),
        Scalar::of_bits(ONE),
    );
    lemma_compares(zero, m.eps_ratio);
    lemma_compares(m.eps_ratio, one);
    lemma_compares(m.lambda, zero);
    lemma_compares(m.alpha, zero);
    lemma_compares(m.eta, zero);
    lemma_compares(m.cfl, zero);
    lemma_compares(half, m.cfl);
    match m.seed_size {
        SeedSize::Critical(k) => {
            lemma_compares(k, zero);
        },
        SeedSize::Cells(r) => {
            lemma_compares(r, zero);
        },
    }
}

/// Models compare equal exactly if all their parameters are the same numbers.
pub proof fn law_models_compare_as_numbers(a: Model, b: Model)
    requires
        all_finite(a),
        all_finite(b),
    ensures
        a.same(&b) <==> {
            &&& accuracy::exact(a.lambda) == accuracy::exact(b.lambda)
            &&& accuracy::exact(a.eps_ratio) == accuracy::exact(b.eps_ratio)
            &&& accuracy::exact(a.alpha) == accuracy::exact(b.alpha)
            &&& accuracy::exact(a.eta) == accuracy::exact(b.eta)
            &&& accuracy::exact(a.phi_b) == accuracy::exact(b.phi_b)
            &&& accuracy::exact(a.dx) == accuracy::exact(b.dx)
            &&& accuracy::exact(a.cfl) == accuracy::exact(b.cfl)
            &&& match (a.seed_size, b.seed_size) {
                (SeedSize::Critical(x), SeedSize::Critical(y)) => accuracy::exact(x)
                    == accuracy::exact(y),
                (SeedSize::Cells(x), SeedSize::Cells(y)) => accuracy::exact(x) == accuracy::exact(
                    y,
                ),
                _ => false,
            }
        },
{
    lemma_compares(a.lambda, b.lambda);
    lemma_compares(a.eps_ratio, b.eps_ratio);
    lemma_compares(a.alpha, b.alpha);
    lemma_compares(a.eta, b.eta);
    lemma_compares(a.phi_b, b.phi_b);
    lemma_compares(a.dx, b.dx);
    lemma_compares(a.cfl, b.cfl);
    match (a.seed_size, b.seed_size) {
        (SeedSize::Critical(x), SeedSize::Critical(y)) => {
            lemma_compares(x, y);
        },
        (SeedSize::Cells(x), SeedSize::Cells(y)) => {
            lemma_compares(x, y);
        },
        _ => {},
    }
}

} // verus!
