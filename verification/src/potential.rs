//! What the parameters of a model describe, as numbers: the scalar potential,
//! and the critical bubble against its wall.
//!
//! The derived quantities of a model are rounded after every operation, so the
//! relations between them hold up to rounding.  The statements here say how
//! closely they hold, in units where `phi_b` is one.

use vstd::arithmetic::div_mod::*;
use vstd::arithmetic::power2::*;
use vstd::prelude::*;

use crate::accuracy;
use crate::physics;
use crate::physics::{Model, SeedSize, SQRT_2};
use crate::rounding;
use crate::rounding::{BINADE, INFINITE};
use crate::scalar;
use crate::scalar::{Scalar, FOUR, HALF, ONE, ONE_AND_A_HALF, QUARTER, SIX, TWELVE, TWO, ZERO};

verus! {

/// Whether a valid model is in units where `phi_b` is one, and its bag constant
/// is held to full precision: it neither underflows nor overflows.
pub open spec fn resolved(m: Model) -> bool {
    &&& physics::model_fault(m) is None
    &&& m.phi_b == Scalar::of_bits(ONE)
    &&& accuracy::normal(m.eps())
}

/// The splitting of the vacuum energy is a positive number below one.
proof fn lemma_ratio(m: Model)
    requires
        physics::model_fault(m) is None,
    ensures
        accuracy::positive(m.eps_ratio),
        m.eps_ratio.bits < ONE,
        scalar::units(m.eps_ratio.bits as nat) < scalar::one_units(),
        accuracy::exact(m.eps_ratio) < 1 as real,
{
    let r = m.eps_ratio;
    accuracy::lemma_constants();
    scalar::lemma_units_zero(0);
    if r.magnitude() >= ONE {
        if r.magnitude() > ONE {
            scalar::lemma_units_order(ONE as nat, r.magnitude());
        }
    }
    assert(r.magnitude() > 0);
    assert(r.bits == r.magnitude());
    accuracy::lemma_positive(r);
    let (u, z) = (scalar::units(r.bits as nat) as real, scalar::one_units() as real);
    assert(u / z < 1 as real) by (nonlinear_arith)
        requires
            u < z,
            z > 0 as real,
    ;
}

/// Powers of one.
proof fn lemma_ones()
    ensures
        Scalar::of_bits(ONE).squared() == Scalar::of_bits(ONE),
        Scalar::of_bits(ONE).cubed() == Scalar::of_bits(ONE),
        Scalar::of_bits(ONE).fourth() == Scalar::of_bits(ONE),
{
    scalar::lemma_times_one(Scalar::of_bits(ONE));
}

/// A positive coupling, from a model that is accepted.
proof fn lemma_positive_coupling(m: Model)
    requires
        physics::model_fault(m) is None,
        m.lambda.is_finite(),
    ensures
        accuracy::positive(m.lambda),
{
    scalar::lemma_units_zero(0);
    scalar::lemma_units_zero(m.lambda.magnitude());
    assert(m.lambda.bits == m.lambda.magnitude());
}

/// The product behind the bag constant, and what it says of the coupling.
proof fn lemma_coupling(m: Model)
    requires
        resolved(m),
    ensures
        2 * BINADE <= m.lambda.bits < INFINITE,
        scalar::units(m.lambda.bits as nat) >= 2 * BINADE,
        accuracy::normal(m.eps_ratio.times(m.lambda)),
        m.eps() == m.eps_ratio.times(m.lambda).over(Scalar::of_bits(TWELVE)),
{
    lemma_ratio(m);
    lemma_ones();
    accuracy::lemma_constants();
    let (r, l) = (m.eps_ratio, m.lambda);
    let twelve = Scalar::of_bits(TWELVE);
    let y = r.times(l);
    accuracy::lemma_positive(r);
    accuracy::lemma_positive(twelve);
    accuracy::lemma_positive(m.eps());
    accuracy::lemma_finite_quotient(y.times(Scalar::of_bits(ONE)), twelve);
    accuracy::lemma_finite_product(y, Scalar::of_bits(ONE));
    accuracy::lemma_finite_product(r, l);
    lemma_positive_coupling(m);
    accuracy::lemma_positive(l);
    scalar::lemma_times_one(y);
    let (ur, ul, z) = (
        scalar::units(r.bits as nat),
        scalar::units(l.bits as nat),
        scalar::one_units(),
    );
    assert(!y.negative() && y.magnitude() <= l.bits) by {
        reveal(Scalar::times_spec);
        assert(ur * ul <= z * ul) by (nonlinear_arith)
            requires
                ur <= z,
                ul >= 0,
        ;
        scalar::lemma_round_bounded(ur * ul, z, l.bits as nat);
        scalar::lemma_signed(false, rounding::round_magnitude(ur * ul, z));
    }
    if y.magnitude() < 2 * BINADE {
        let top = (BINADE - 1) as nat;
        lemma_small_units(y.magnitude());
        lemma_small_units(top);
        let u = scalar::units(y.magnitude());
        assert(u * z <= (12 * z) * top) by (nonlinear_arith)
            requires
                u < 2 * BINADE,
                top == BINADE - 1,
                z > 0,
        ;
        scalar::lemma_over_bounded(y, twelve, top);
    }
    assert(y.bits == y.magnitude());
    lemma_small_units((2 * BINADE - 1) as nat);
    scalar::lemma_units_order((2 * BINADE - 1) as nat, l.bits as nat);
}

/// Small numbers are as many units as their pattern says.
proof fn lemma_small_units(m: nat)
    requires
        m < 2 * BINADE,
    ensures
        scalar::units(m) == m,
{
    lemma2_to64();
    assert(scalar::significand(m) == m && scalar::exponent(m) == 0);
    assert(m * pow2(0) == m) by (nonlinear_arith)
        requires
            pow2(0) == 1,
    ;
}

/// The bag constant is a twelfth of the coupling times the splitting.
proof fn lemma_eps(m: Model)
    requires
        resolved(m),
    ensures
        accuracy::near(
            accuracy::exact(m.eps()),
            accuracy::exact(m.eps_ratio) * accuracy::exact(m.lambda) / 12 as real,
            3,
        ),
{
    lemma_ratio(m);
    lemma_coupling(m);
    accuracy::lemma_constants();
    let (r, l) = (m.eps_ratio, m.lambda);
    let twelve = Scalar::of_bits(TWELVE);
    let y = r.times(l);
    accuracy::lemma_positive(l);
    accuracy::lemma_positive(r);
    accuracy::lemma_times_near(r, l);
    accuracy::lemma_over_near(y, twelve);
    accuracy::lemma_constant(TWELVE, 12, 1);
    let (a, b) = (accuracy::exact(r), accuracy::exact(l));
    accuracy::lemma_positive_product(a, b);
    accuracy::lemma_near_scales(accuracy::exact(y), a * b, 1, 12 as real);
    accuracy::lemma_quotient_back(a * b, 12 as real);
    assert(12int as real / 1int as real == 12 as real);
    accuracy::lemma_near_joins(
        accuracy::exact(m.eps()),
        accuracy::exact(y) / 12 as real,
        1,
        a * b / 12 as real,
        1,
    );
}

/// The numerator of the wall thickness squares to eight.
pub proof fn lemma_numerator()
    ensures
        ({
            let c = Scalar::of_bits(TWO).times(Scalar::of_bits(SQRT_2));
            &&& accuracy::normal(c)
            &&& scalar::one_units() <= scalar::units(c.bits as nat) <= 4 * scalar::one_units()
            &&& accuracy::near(accuracy::exact(c) * accuracy::exact(c), 8 as real, 5)
        }),
{
    let (two, root) = (Scalar::of_bits(TWO), Scalar::of_bits(SQRT_2));
    let c = two.times(root);
    lemma2_to64();
    accuracy::lemma_constants();
    rounding::lemma_pow2_sum(23, 126);
    rounding::lemma_pow2_sum(23, 128);
    rounding::lemma_pow2_sum(2, 149);
    assert(scalar::significand(SQRT_2 as nat) == 0xb5_04f3 && scalar::exponent(SQRT_2 as nat)
        == 126);
    assert(scalar::significand(FOUR as nat) == 0x80_0000 && scalar::exponent(FOUR as nat) == 128);
    let z = scalar::one_units();
    let (ut, us) = (scalar::units(TWO as nat), scalar::units(SQRT_2 as nat));
    assert(z * z <= ut * us <= z * (4 * z) && ut * us >= z * BINADE) by (nonlinear_arith)
        requires
            ut == 2 * z,
            BINADE <= us,
            z <= us <= 2 * z,
            z > 0,
    ;
    assert(c.is_finite() && ONE <= c.bits <= FOUR) by {
        reveal(Scalar::times_spec);
        scalar::lemma_round_bounded(ut * us, z, FOUR as nat);
        rounding::lemma_round_monotone(z * z, ut * us, z);
        rounding::lemma_round_scales(z, 1, z);
        assert(z * 1 == z);
        scalar::lemma_round_exact(ONE as nat);
        scalar::lemma_signed(false, rounding::round_magnitude(ut * us, z));
    }
    if c.bits < FOUR {
        scalar::lemma_units_order(c.bits as nat, FOUR as nat);
    }
    if c.bits > ONE {
        scalar::lemma_units_order(ONE as nat, c.bits as nat);
    }
    accuracy::lemma_normal_product(two, root);
    accuracy::lemma_times_near(two, root);
    accuracy::lemma_constant(TWO, 2, 1);
    accuracy::lemma_constant(SQRT_2, 0xb5_04f3, 0x80_0000);
    accuracy::lemma_positive(root);
    let (x, y) = (accuracy::exact(c), accuracy::exact(root));
    let t = 2 as real * y;
    assert(accuracy::exact(two) == 2 as real);
    accuracy::lemma_near_product(x, t, 1, x, t, 1);
    accuracy::lemma_step();
    let e = accuracy::step();
    let q = t * t;
    assert(0x80_0000 as real * y == 0xb5_04f3 as real) by (nonlinear_arith)
        requires
            y == 0xb5_04f3 as real / 0x80_0000 as real,
    ;
    assert(0x80_0000 as real * t == 0x16a_09e6 as real);
    assert((0x80_0000 as real * 0x80_0000 as real) * q == 0x16a_09e6 as real * 0x16a_09e6 as real)
        by (nonlinear_arith)
        requires
            q == t * t,
            0x80_0000 as real * t == 0x16a_09e6 as real,
    ;
    assert(8 as real * (1 as real - e) <= q && q <= 8 as real * (1 as real + e)) by (nonlinear_arith)
        requires
            (0x80_0000 as real * 0x80_0000 as real) * q == 0x16a_09e6 as real * 0x16a_09e6 as real,
            0x80_0000 as real * e == 1 as real,
    ;
    assert(1int as real * e == e) by (nonlinear_arith);
    accuracy::lemma_near_joins(x * x, q, 3, 8 as real, 1);
}

/// The wall thickness is held to full precision, and squares to eight over the
/// coupling.
proof fn lemma_wall(m: Model)
    requires
        resolved(m),
    ensures
        accuracy::normal(m.wall_width()),
        accuracy::near(
            accuracy::exact(m.wall_width()) * accuracy::exact(m.wall_width()),
            8 as real / accuracy::exact(m.lambda),
            13,
        ),
{
    lemma_coupling(m);
    let s = m.lambda.sqrt();
    let c = Scalar::of_bits(TWO).times(Scalar::of_bits(SQRT_2));
    accuracy::lemma_sqrt_near(m.lambda);
    accuracy::lemma_positive(s);
    accuracy::lemma_positive(m.lambda);
    accuracy::lemma_one_times(s);
    lemma_numerator();
    accuracy::lemma_positive(c);
    // In range: the numerator is about three, the root neither tiny nor huge.
    let z = scalar::one_units();
    let (uc, us) = (scalar::units(c.bits as nat), scalar::units(s.bits as nat));
    let top = (206 * BINADE) as nat;
    lemma2_to64();
    assert(scalar::significand(top) == 0x80_0000 && scalar::exponent(top) == 205);
    rounding::lemma_pow2_sum(23, 205);
    rounding::lemma_pow2_sum(2, 149);
    rounding::lemma_pow2_sum(151, 149);
    rounding::lemma_pow2_sum(73, 228);
    lemma_pow2_strictly_increases(300, 301);
    assert(uc * z <= us * scalar::units(top)) by (nonlinear_arith)
        requires
            uc <= pow2(151),
            z == pow2(149),
            us >= pow2(73),
            scalar::units(top) == pow2(228),
            pow2(300) == pow2(151) * pow2(149),
            pow2(301) == pow2(73) * pow2(228),
            pow2(300) <= pow2(301),
            pow2(149) > 0,
            pow2(228) > 0,
    ;
    scalar::lemma_over_bounded(c, s, top);
    rounding::lemma_pow2_sum(149, 149);
    rounding::lemma_pow2_sum(240, 23);
    lemma_pow2_strictly_increases(263, 298);
    assert(uc * z >= us * BINADE) by (nonlinear_arith)
        requires
            uc >= pow2(149),
            z == pow2(149),
            us <= pow2(240),
            pow2(23) == BINADE,
            pow2(298) == pow2(149) * pow2(149),
            pow2(263) == pow2(240) * pow2(23),
            pow2(263) <= pow2(298),
            pow2(149) > 0,
    ;
    accuracy::lemma_normal_quotient(c, s);
    accuracy::lemma_positive(m.wall_width());
    accuracy::lemma_over_near(c, s);
    let (w, x, y, l) = (
        accuracy::exact(m.wall_width()),
        accuracy::exact(c),
        accuracy::exact(s),
        accuracy::exact(m.lambda),
    );
    let t = x / y;
    accuracy::lemma_quotient_back(x, y);
    accuracy::lemma_near_product(w, t, 1, w, t, 1);
    accuracy::lemma_near_ratio(x * x, 8 as real, 5, y * y, l, 3);
    assert(t * t == (x * x) / (y * y)) by (nonlinear_arith)
        requires
            t * y == x,
            y > 0 as real,
    ;
    accuracy::lemma_quotient_back(8 as real, l);
    accuracy::lemma_near_joins(w * w, t * t, 3, 8 as real / l, 9);
}

/// A quotient is normal where it is not too small, as numbers.
proof fn lemma_normal_ratio(a: Scalar, b: Scalar)
    requires
        accuracy::positive(a),
        accuracy::positive(b),
        a.over(b).is_finite(),
        accuracy::exact(b) <= far() * accuracy::exact(a),
    ensures
        accuracy::normal(a.over(b)),
{
    accuracy::lemma_positive(a);
    accuracy::lemma_positive(b);
    let (p, q, one) = (
        scalar::units(a.bits as nat),
        scalar::units(b.bits as nat),
        scalar::one_units(),
    );
    let f = pow2(100);
    let (x, y, z, k) = (p as real, q as real, one as real, f as real);
    accuracy::lemma_quotient_back(x, z);
    accuracy::lemma_quotient_back(y, z);
    accuracy::lemma_order(y / z, k * (x / z), z);
    assert((k * (x / z)) * z == k * x) by (nonlinear_arith)
        requires
            (x / z) * z == x,
    ;
    let g = f * p;
    assert(g as real == k * x) by (nonlinear_arith)
        requires
            g == f * p,
            k == f as real,
            x == p as real,
    ;
    assert(q <= g);
    lemma2_to64();
    rounding::lemma_pow2_sum(100, 23);
    lemma_pow2_strictly_increases(123, 149);
    assert(p * one >= q * BINADE) by (nonlinear_arith)
        requires
            q <= f * p,
            one >= f * BINADE,
            p > 0,
    ;
    accuracy::lemma_normal_quotient(a, b);
}

/// The critical radius is held to full precision where it is finite, and times
/// the splitting it squares to eight over the coupling.
proof fn lemma_radius(m: Model)
    requires
        resolved(m),
        m.critical_radius().is_finite(),
    ensures
        accuracy::normal(m.critical_radius()),
        ({
            let x = accuracy::exact(m.critical_radius()) * accuracy::exact(m.eps_ratio);
            accuracy::near(x * x, 8 as real / accuracy::exact(m.lambda), 30)
        }),
{
    let (two, six) = (Scalar::of_bits(TWO), Scalar::of_bits(SIX));
    lemma_ratio(m);
    lemma_ones();
    lemma_coupling(m);
    lemma_eps(m);
    accuracy::lemma_constants();
    accuracy::lemma_least();
    let h = m.lambda.over(two);
    let s = h.sqrt();
    let tension = m.surface_tension();
    let twice = two.times(tension);
    accuracy::lemma_positive(m.lambda);
    accuracy::lemma_positive(m.eps_ratio);
    accuracy::lemma_positive(m.eps());
    let z = scalar::one_units();
    let ul = scalar::units(m.lambda.bits as nat);
    assert(ul * z <= (2 * z) * ul && ul * z >= (2 * z) * BINADE) by (nonlinear_arith)
        requires
            ul >= 2 * BINADE,
            z > 0,
    ;
    scalar::lemma_over_bounded(m.lambda, two, m.lambda.bits as nat);
    accuracy::lemma_normal_quotient(m.lambda, two);
    accuracy::lemma_positive(h);
    accuracy::lemma_over_near(m.lambda, two);
    accuracy::lemma_sqrt_near(h);
    accuracy::lemma_positive(s);
    scalar::lemma_times_one(s);
    assert(tension == s.over(six));
    accuracy::lemma_finite_quotient(twice, m.eps());
    accuracy::lemma_finite_product(two, tension);
    lemma_far_above();
    let us = scalar::units(s.bits as nat);
    assert(us * z >= scalar::units(SIX as nat) * BINADE) by (nonlinear_arith)
        requires
            us >= 6 * BINADE,
            scalar::units(SIX as nat) == 6 * z,
            z > 0,
    ;
    accuracy::lemma_normal_quotient(s, six);
    accuracy::lemma_over_near(s, six);
    accuracy::lemma_positive(tension);
    let ut = scalar::units(tension.bits as nat);
    if tension.bits > BINADE {
        scalar::lemma_units_order(BINADE as nat, tension.bits as nat);
    }
    assert(scalar::units(TWO as nat) * ut >= z * BINADE) by (nonlinear_arith)
        requires
            ut >= BINADE,
            scalar::units(TWO as nat) == 2 * z,
            z > 0,
    ;
    accuracy::lemma_normal_product(two, tension);
    accuracy::lemma_times_near(two, tension);
    accuracy::lemma_constant(TWO, 2, 1);
    accuracy::lemma_constant(SIX, 6, 1);
    assert(accuracy::exact(two) == 2 as real && accuracy::exact(six) == 6 as real);
    accuracy::lemma_positive(twice);
    let (l, r, x, y, t, v, e) = (
        accuracy::exact(m.lambda),
        accuracy::exact(m.eps_ratio),
        accuracy::exact(h),
        accuracy::exact(s),
        accuracy::exact(tension),
        accuracy::exact(twice),
        accuracy::exact(m.eps()),
    );
    lemma_root_bounded(s);
    lemma_radius_in_range(l, r, x, y, t, v, e);
    lemma_normal_ratio(twice, m.eps());
    accuracy::lemma_over_near(twice, m.eps());
    accuracy::lemma_positive(m.critical_radius());
    lemma_radius_chain(l, r, x, y, t, v, e, accuracy::exact(m.critical_radius()));
}

/// `2^100`, past every square root.
spec fn far() -> real {
    pow2(100) as real
}

proof fn lemma_root_bounded(s: Scalar)
    requires
        accuracy::positive(s),
        scalar::units(s.bits as nat) < pow2(240),
    ensures
        accuracy::exact(s) <= far(),
{
    accuracy::lemma_positive(s);
    rounding::lemma_pow2_sum(100, 149);
    lemma_pow2_strictly_increases(240, 249);
    let (u, z, f) = (scalar::units(s.bits as nat) as int, scalar::one_units() as int, pow2(100));
    let g = f * z;
    assert(u <= g);
    let (x, y, w) = (u as real, z as real, f as real);
    assert(g as real == w * y) by (nonlinear_arith)
        requires
            g == f * z,
            w == f as real,
            y == z as real,
    ;
    accuracy::lemma_quotient_back(x, y);
    assert(x / y <= w) by (nonlinear_arith)
        requires
            (x / y) * y == x,
            x <= w * y,
            y > 0 as real,
    ;
}

/// The critical radius is not too small, as numbers.
proof fn lemma_radius_in_range(
    l: real,
    r: real,
    h: real,
    s: real,
    tension: real,
    twice: real,
    eps: real,
)
    requires
        l > 0 as real,
        r > 0 as real,
        r < 1 as real,
        h > 0 as real,
        s > 0 as real,
        s <= far(),
        tension > 0 as real,
        twice > 0 as real,
        eps > 0 as real,
        accuracy::near(h, l / 2 as real, 1),
        accuracy::near(s * s, h, 3),
        accuracy::near(tension, s / 6 as real, 1),
        accuracy::near(twice, 2 as real * tension, 1),
        accuracy::near(eps, r * l / 12 as real, 3),
    ensures
        eps <= far() * twice,
{
    accuracy::lemma_step();
    accuracy::lemma_near_joins(s * s, h, 3, l / 2 as real, 1);
    accuracy::lemma_near_within(s * s, l / 2 as real, 5);
    accuracy::lemma_near_within(tension, s / 6 as real, 1);
    accuracy::lemma_near_within(twice, 2 as real * tension, 1);
    accuracy::lemma_near_within(eps, r * l / 12 as real, 3);
    let e = accuracy::step();
    let q = s * s;
    lemma_small_share(l / 2 as real);
    lemma_small_share(s / 6 as real);
    lemma_small_share(2 as real * tension);
    let g = r * l;
    accuracy::lemma_positive_product(r, l);
    accuracy::lemma_order(r, 1 as real, l);
    lemma_small_share(g / 12 as real);
    assert(11 as real * eps <= l);
    assert(5 as real * l <= 11 as real * q);
    assert(twice >= s / 4 as real);
    let f = far();
    accuracy::lemma_order(s, f, s);
    accuracy::lemma_order(s / 4 as real, twice, f);
    assert(f * (s / 4 as real) == (f * s) / 4 as real) by (nonlinear_arith);
    assert(s * s <= f * s);
    assert(5 as real * eps <= q);
}

/// A step of something is a small share of it.
proof fn lemma_small_share(x: real)
    requires
        x >= 0 as real,
    ensures
        0 as real <= accuracy::step() * x,
        0x80_0000 as real * (accuracy::step() * x) == x,
{
    accuracy::lemma_step();
    let e = accuracy::step();
    accuracy::lemma_order(0 as real, x, e);
    let q = e * x;
    assert(0x80_0000 as real * q == x) by (nonlinear_arith)
        requires
            q == e * x,
            0x80_0000 as real * e == 1 as real,
    ;
}

proof fn lemma_far_above()
    ensures
        pow2(73) >= 6 * BINADE,
{
    lemma2_to64();
    lemma_pow2_strictly_increases(26, 73);
}

/// The steps from the coupling to the critical radius, as numbers.
proof fn lemma_radius_chain(
    l: real,
    r: real,
    h: real,
    s: real,
    tension: real,
    twice: real,
    eps: real,
    radius: real,
)
    requires
        l > 0 as real,
        r > 0 as real,
        h > 0 as real,
        s > 0 as real,
        tension > 0 as real,
        twice > 0 as real,
        eps > 0 as real,
        radius > 0 as real,
        accuracy::near(h, l / 2 as real, 1),
        accuracy::near(s * s, h, 3),
        accuracy::near(tension, s / 6 as real, 1),
        accuracy::near(twice, 2 as real * tension, 1),
        accuracy::near(eps, r * l / 12 as real, 3),
        accuracy::near(radius, twice / eps, 1),
    ensures
        accuracy::near((radius * r) * (radius * r), 8 as real / l, 30),
{
    accuracy::lemma_step();
    // twice ~ s / 3
    let third = 2 as real * (s / 6 as real);
    lemma_near_itself(2 as real);
    accuracy::lemma_near_product(2 as real, 2 as real, 0, tension, s / 6 as real, 1);
    accuracy::lemma_near_joins(twice, 2 as real * tension, 1, third, 2);
    // radius ~ 4 s / (r l)
    let bag = r * l / 12 as real;
    accuracy::lemma_positive_product(r, l);
    accuracy::lemma_near_ratio(twice, third, 4, eps, bag, 3);
    let x = third / bag;
    accuracy::lemma_quotient_back(third, bag);
    accuracy::lemma_near_joins(radius, twice / eps, 1, x, 8);
    // radius r ~ 4 s / l
    lemma_near_itself(r);
    accuracy::lemma_near_product(radius, x, 10, r, r, 0);
    let y = x * r;
    accuracy::lemma_positive_product(x, r);
    assert(y * l == 4 as real * s) by (nonlinear_arith)
        requires
            y == x * r,
            x * bag == third,
            bag == r * l / 12 as real,
            third == 2 as real * (s / 6 as real),
    ;
    accuracy::lemma_near_product(radius * r, y, 11, radius * r, y, 11);
    // s s ~ l / 2
    accuracy::lemma_near_joins(s * s, h, 3, l / 2 as real, 1);
    // (4 s / l)^2 ~ 8 / l
    let k = 16 as real / (l * l);
    accuracy::lemma_positive_product(l, l);
    accuracy::lemma_quotient_back(16 as real, l * l);
    lemma_near_itself(k);
    accuracy::lemma_near_product(s * s, l / 2 as real, 5, k, k, 0);
    let e = 8 as real / l;
    accuracy::lemma_quotient_back(8 as real, l);
    assert((l / 2 as real) * k == e) by {
        assert(((l / 2 as real) * k) * l == e * l) by (nonlinear_arith)
            requires
                k * (l * l) == 16 as real,
                e * l == 8 as real,
        ;
        lemma_drop((l / 2 as real) * k, e, l);
    }
    assert((s * s) * k == y * y) by {
        assert(((s * s) * k) * (l * l) == (y * y) * (l * l)) by (nonlinear_arith)
            requires
                k * (l * l) == 16 as real,
                y * l == 4 as real * s,
        ;
        lemma_drop((s * s) * k, y * y, l * l);
    }
    accuracy::lemma_near_joins((radius * r) * (radius * r), y * y, 23, e, 6);
}

proof fn lemma_drop(x: real, y: real, c: real)
    requires
        x * c == y * c,
        c > 0 as real,
    ensures
        x == y,
{
    assert(x == y) by (nonlinear_arith)
        requires
            x * c == y * c,
            c > 0 as real,
    ;
}

proof fn lemma_near_itself(x: real)
    ensures
        accuracy::near(x, x, 0),
{
    let e = 0int as real * accuracy::step();
    assert(e == 0 as real);
    assert(x * (1 as real - e) == x && x * (1 as real + e) == x) by (nonlinear_arith)
        requires
            e == 0 as real,
    ;
}

// ---------------------------------------------------------------------------
//  The critical bubble and its wall
// ---------------------------------------------------------------------------

/// `1 - 2^-17`, just short of where the barrier disappears.
pub const BARRIER_END: u32 = 0x3f7f_ff80;

/// The critical radius in wall widths is one over the splitting of the vacuum
/// energy, whatever the coupling, up to a relative error of `2^-17`.  The
/// critical bubble is therefore larger than its own wall, unless the barrier
/// has all but disappeared.
pub proof fn law_critical_radius_in_wall_widths(m: Model)
    requires
        resolved(m),
        m.critical_radius().is_finite(),
    ensures
        accuracy::normal(m.wall_width()),
        accuracy::normal(m.critical_radius()),
        accuracy::near(
            accuracy::exact(m.critical_radius()) * accuracy::exact(m.eps_ratio),
            accuracy::exact(m.wall_width()),
            64,
        ),
        m.eps_ratio.lt(Scalar::of_bits(BARRIER_END)) ==> m.wall_width().lt(m.critical_radius()),
{
    lemma_coupling(m);
    lemma_wall(m);
    lemma_radius(m);
    lemma_ratio(m);
    accuracy::lemma_positive(m.lambda);
    accuracy::lemma_positive(m.eps_ratio);
    accuracy::lemma_positive(m.wall_width());
    accuracy::lemma_positive(m.critical_radius());
    let (c, r, w, l) = (
        accuracy::exact(m.critical_radius()),
        accuracy::exact(m.eps_ratio),
        accuracy::exact(m.wall_width()),
        accuracy::exact(m.lambda),
    );
    let x = c * r;
    accuracy::lemma_positive_product(c, r);
    accuracy::lemma_positive_product(w, w);
    let t = 8 as real / l;
    accuracy::lemma_quotient_back(8 as real, l);
    accuracy::lemma_near_turns(w * w, t, 13);
    accuracy::lemma_near_joins(x * x, t, 30, w * w, 14);
    accuracy::lemma_near_roots(x, w, 45);
    accuracy::lemma_near_widens(x, w, 45, 64);
    if m.eps_ratio.lt(Scalar::of_bits(BARRIER_END)) {
        lemma_barrier_end(m.eps_ratio);
        let f = 1 as real - 64int as real * accuracy::step();
        // w r < w f <= c r
        assert(w * r < w * f) by (nonlinear_arith)
            requires
                r < f,
                w > 0 as real,
        ;
        assert(w < c) by (nonlinear_arith)
            requires
                w * r < c * r,
                r > 0 as real,
        ;
        accuracy::lemma_exact_order(m.wall_width(), m.critical_radius());
    }
}

/// The thin-wall quality that the panel shows is the critical radius over the
/// wall width, to within a thousandth of the quotient.
pub proof fn law_thin_wall_quality_is_the_quotient(m: Model)
    requires
        resolved(m),
        m.critical_radius().is_finite(),
        m.critical_radius().over(m.wall_width()).is_finite(),
        m.critical_to_wall_ratio().is_finite(),
    ensures
        ({
            let q = accuracy::exact(m.critical_radius().over(m.wall_width()));
            let ratio = accuracy::exact(m.critical_to_wall_ratio());
            1000 as real * (q - ratio) < q && 1000 as real * (ratio - q) < q
        }),
{
    law_critical_radius_in_wall_widths(m);
    lemma_ratio(m);
    accuracy::lemma_step();
    let (radius, wall, one) = (m.critical_radius(), m.wall_width(), Scalar::of_bits(ONE));
    let q = radius.over(wall);
    let ratio = m.critical_to_wall_ratio();
    accuracy::lemma_positive(m.eps_ratio);
    accuracy::lemma_positive(radius);
    accuracy::lemma_positive(wall);
    accuracy::lemma_positive(one);
    accuracy::lemma_constants();
    let (c, r, w) = (
        accuracy::exact(radius),
        accuracy::exact(m.eps_ratio),
        accuracy::exact(wall),
    );
    // c / w is near 1 / r.
    let d = w * r;
    accuracy::lemma_positive_product(w, r);
    accuracy::lemma_near_scales(c * r, w, 64, d);
    let (x, y) = (c / w, 1 as real / r);
    accuracy::lemma_quotient_back(c, w);
    accuracy::lemma_quotient_back(1 as real, r);
    accuracy::lemma_positive_product(c, r);
    accuracy::lemma_quotient_back(c * r, d);
    accuracy::lemma_quotient_back(w, d);
    assert(x == (c * r) / d) by {
        assert(x * d == c * r) by (nonlinear_arith)
            requires
                d == w * r,
                x * w == c,
        ;
        lemma_drop(x, (c * r) / d, d);
    }
    assert(y == w / d) by {
        assert(y * d == w) by (nonlinear_arith)
            requires
                d == w * r,
                y * r == 1 as real,
        ;
        lemma_drop(y, w / d, d);
    }
    // Neither quotient is small.
    accuracy::lemma_near_within(c * r, w, 64);
    lemma_small_share(w);
    accuracy::lemma_order(r, 1 as real, c);
    lemma2_to64();
    lemma_pow2_strictly_increases(1, 100);
    let f = far();
    accuracy::lemma_order(2 as real, f, c);
    assert(w <= 2 as real * c);
    lemma_normal_ratio(radius, wall);
    let (z, u) = (scalar::one_units(), scalar::units(m.eps_ratio.bits as nat));
    lemma_pow2_strictly_increases(23, 149);
    assert(z * z >= u * BINADE) by (nonlinear_arith)
        requires
            u <= z,
            BINADE <= z,
    ;
    accuracy::lemma_normal_quotient(one, m.eps_ratio);
    accuracy::lemma_over_near(radius, wall);
    accuracy::lemma_over_near(one, m.eps_ratio);
    accuracy::lemma_constant(ONE, 1, 1);
    accuracy::lemma_positive(q);
    accuracy::lemma_positive(ratio);
    let (a, b) = (accuracy::exact(q), accuracy::exact(ratio));
    assert(accuracy::exact(one) == 1 as real);
    accuracy::lemma_near_joins(a, x, 1, y, 64);
    accuracy::lemma_near_turns(b, y, 1);
    accuracy::lemma_near_joins(a, y, 66, b, 2);
    accuracy::lemma_near_turns(a, b, 69);
    accuracy::lemma_near_within(b, a, 70);
    lemma_small_share(a);
}

/// The thin-wall quality that the panel shows is above one for every valid
/// model: the critical bubble is never smaller than its own wall.
pub proof fn law_critical_bubble_exceeds_its_wall(m: Model)
    requires
        physics::model_fault(m) is None,
    ensures
        Scalar::of_bits(ONE).lt(m.critical_to_wall_ratio()),
{
    lemma_ratio(m);
    let r = m.eps_ratio;
    accuracy::lemma_positive(r);
    accuracy::lemma_constants();
    let z = scalar::one_units();
    let n = z * z;
    let d = scalar::units(r.bits as nat);
    // The largest number below one.
    let top = (ONE - 1) as nat;
    let e = scalar::units(top);
    if r.bits < top {
        scalar::lemma_units_order(r.bits as nat, top);
    }
    assert(d <= e);
    rounding::lemma_round_scales(n, d, e);
    rounding::lemma_round_scales(n, e, d);
    assert(d * n <= e * n && d * e == e * d) by (nonlinear_arith)
        requires
            d <= e,
            n >= 0,
    ;
    assert(e * d > 0) by (nonlinear_arith)
        requires
            d > 0,
            e > 0,
    ;
    rounding::lemma_round_monotone(d * n, e * n, e * d);
    lemma_largest_below_one();
    let m1 = rounding::round_magnitude(n, d);
    scalar::lemma_units_order(ONE as nat, m1);
    scalar::lemma_signed(false, m1);
    assert(m.critical_to_wall_ratio() == scalar::signed(false, m1)) by {
        reveal(Scalar::over_spec);
        accuracy::lemma_positive(Scalar::of_bits(ONE));
    }
}

/// One over the largest number below one is the smallest above.
proof fn lemma_largest_below_one()
    ensures
        ({
            let z = scalar::one_units();
            rounding::round_magnitude(z * z, scalar::units((ONE - 1) as nat)) == ONE + 1
        }),
{
    lemma2_to64();
    let z = scalar::one_units();
    let top = (ONE - 1) as nat;
    let d: nat = 0xff_ffff;
    let p = pow2(126);
    assert(scalar::significand(top) == 0xff_ffff && scalar::exponent(top) == 125);
    rounding::lemma_pow2_sum(149, 149);
    rounding::lemma_pow2_sum(125, 173);
    rounding::lemma_pow2_sum(47, 126);
    rounding::lemma_pow2_sum(23, 126);
    rounding::lemma_pow2_sum(24, 126);
    rounding::lemma_pow2_sum(23, 24);
    let n = pow2(173);
    let c = pow2(125);
    assert(scalar::units(top) == c * d) by (nonlinear_arith)
        requires
            scalar::units(top) == d * c,
    ;
    rounding::lemma_round_scales(n, d, c);
    let q = n / d;
    lemma_fundamental_div_mod(n as int, d as int);
    assert(pow2(149) <= q < pow2(150)) by (nonlinear_arith)
        requires
            n == d * q + n % d,
            0 <= n % d < d,
            d == 0xff_ffff,
            n == 0x8000_0000_0000 * p,
            pow2(149) == 0x80_0000 * p,
            pow2(150) == 0x100_0000 * p,
            p > 0,
    ;
    rounding::lemma_bit_len_unique(q, 150);
    let h = 0x80_0000int;
    assert(n == h * (d * p) + h * p) by (nonlinear_arith)
        requires
            n == 0x8000_0000_0000 * p,
            d == 0xff_ffff,
            h == 0x80_0000,
    ;
    assert(0 <= h * p < d * p) by (nonlinear_arith)
        requires
            d == 0xff_ffff,
            h == 0x80_0000,
            p > 0,
    ;
    lemma_fundamental_div_mod_converse(n as int, (d * p) as int, h, h * p);
    assert(2 * (h * p) > d * p) by (nonlinear_arith)
        requires
            d == 0xff_ffff,
            h == 0x80_0000,
            p > 0,
    ;
}

/// A number short of the end of the barrier.
proof fn lemma_barrier_end(r: Scalar)
    requires
        accuracy::positive(r),
        r.lt(Scalar::of_bits(BARRIER_END)),
    ensures
        accuracy::exact(r) < 1 as real - 64int as real * accuracy::step(),
{
    lemma2_to64();
    accuracy::lemma_positive(r);
    accuracy::lemma_step();
    rounding::lemma_pow2_sum(24, 125);
    assert(scalar::significand(BARRIER_END as nat) == 0xff_ff80 && scalar::exponent(
        BARRIER_END as nat,
    ) == 125);
    let end = Scalar::of_bits(BARRIER_END);
    accuracy::lemma_positive(end);
    let p = pow2(125);
    assert(scalar::units(BARRIER_END as nat) == 0xff_ff80 * p);
    assert(scalar::one_units() == 0x100_0000 * p);
    accuracy::lemma_constant(BARRIER_END, 0xff_ff80, 0x100_0000);
    let (u, v, z) = (
        scalar::units(r.bits as nat) as real,
        scalar::units(end.bits as nat) as real,
        scalar::one_units() as real,
    );
    assert(u / z < v / z) by (nonlinear_arith)
        requires
            u < v,
            z > 0 as real,
    ;
    let e = accuracy::step();
    assert(0xff_ff80 as real / 0x100_0000 as real == 1 as real - 64int as real * e)
        by (nonlinear_arith)
        requires
            0x80_0000 as real * e == 1 as real,
    ;
}

// ---------------------------------------------------------------------------
//  The shape of the potential
// ---------------------------------------------------------------------------

/// The potential at a field value, `m2 p^2 / 2 - delta p^3 / 3 + lambda p^4 / 4`.
pub open spec fn potential(m: Model, p: real) -> real {
    let (a, b, c) = (
        accuracy::exact(m.m2()),
        accuracy::exact(m.delta()),
        accuracy::exact(m.lambda),
    );
    (p * p) * (a / 2 as real - (b / 3 as real) * p + (c / 4 as real) * (p * p))
}

/// The slope of the potential at a field value.
pub open spec fn slope(m: Model, p: real) -> real {
    let (a, b, c) = (
        accuracy::exact(m.m2()),
        accuracy::exact(m.delta()),
        accuracy::exact(m.lambda),
    );
    p * (a - b * p + c * (p * p))
}

/// A finite difference is one of finite numbers.
proof fn lemma_finite_difference(a: Scalar, b: Scalar)
    requires
        a.minus(b).is_finite(),
    ensures
        a.is_finite(),
        b.is_finite(),
{
    reveal(Scalar::plus_spec);
    if !b.is_nan() {
        scalar::lemma_signed(!b.negative(), b.magnitude());
    } else {
        assert(b.negated().is_nan()) by {
            assert(b.magnitude() < scalar::SIGN);
        }
    }
}

/// Whether a valid model is in units where `phi_b` is one, and its coefficients
/// do not overflow.
pub open spec fn bounded(m: Model) -> bool {
    &&& physics::model_fault(m) is None
    &&& m.phi_b == Scalar::of_bits(ONE)
    &&& m.delta().is_finite()
}

/// The terms of the coefficients: half the coupling, one and a half times the
/// coupling, and six times the bag constant.
proof fn lemma_terms(m: Model)
    requires
        bounded(m),
    ensures
        ({
            let half = Scalar::of_bits(HALF).times(m.lambda);
            let more = Scalar::of_bits(ONE_AND_A_HALF).times(m.lambda);
            let six = Scalar::of_bits(SIX).times(m.eps());
            &&& accuracy::positive(m.lambda)
            &&& accuracy::counts(half) && accuracy::counts(more) && accuracy::counts(six)
            &&& accuracy::counts(m.eps())
            &&& m.eps() == m.eps_ratio.times(m.lambda).over(Scalar::of_bits(TWELVE))
            &&& m.eps_ratio.times(m.lambda).is_finite()
            &&& m.m2() == half.minus(six)
            &&& m.delta() == more.minus(six)
        }),
{
    lemma_ratio(m);
    lemma_ones();
    accuracy::lemma_constants();
    accuracy::lemma_least();
    let (one, twelve) = (Scalar::of_bits(ONE), Scalar::of_bits(TWELVE));
    let (r, l) = (m.eps_ratio, m.lambda);
    let half = Scalar::of_bits(HALF).times(l);
    let more = Scalar::of_bits(ONE_AND_A_HALF).times(l);
    let six = Scalar::of_bits(SIX).times(m.eps());
    let y = r.times(l);
    accuracy::lemma_positive(one);
    accuracy::lemma_positive(twelve);
    lemma_finite_difference(more.times(one), six.over(one));
    accuracy::lemma_finite_product(more, one);
    accuracy::lemma_finite_quotient(six, one);
    accuracy::lemma_finite_product(Scalar::of_bits(ONE_AND_A_HALF), l);
    accuracy::lemma_finite_product(Scalar::of_bits(SIX), m.eps());
    accuracy::lemma_finite_quotient(y.times(one), twelve);
    accuracy::lemma_finite_product(y, one);
    lemma_positive_coupling(m);
    accuracy::lemma_positive(l);
    accuracy::lemma_times_within(r, l);
    scalar::lemma_times_one(y);
    accuracy::lemma_over_within(y, twelve);
    accuracy::lemma_times_within(Scalar::of_bits(SIX), m.eps());
    accuracy::lemma_times_within(Scalar::of_bits(ONE_AND_A_HALF), l);
    let (z, ul) = (scalar::one_units(), scalar::units(l.bits as nat));
    let uh = scalar::units(HALF as nat);
    assert(half.is_finite()) by {
        reveal(Scalar::times_spec);
        accuracy::lemma_positive(Scalar::of_bits(HALF));
        assert(uh * ul <= z * ul) by (nonlinear_arith)
            requires
                uh <= z,
                ul >= 0,
        ;
        scalar::lemma_round_bounded(uh * ul, z, l.bits as nat);
        scalar::lemma_signed(false, rounding::round_magnitude(uh * ul, z));
    }
    accuracy::lemma_times_within(Scalar::of_bits(HALF), l);
    scalar::lemma_times_one(half);
    scalar::lemma_times_one(more);
    accuracy::lemma_over_one(six);
}

/// How close the terms of the coefficients are to what they stand for.
proof fn lemma_sizes(m: Model)
    requires
        bounded(m),
    ensures
        ({
            let h = accuracy::exact(Scalar::of_bits(HALF).times(m.lambda));
            let t = accuracy::exact(Scalar::of_bits(ONE_AND_A_HALF).times(m.lambda));
            let s = accuracy::exact(Scalar::of_bits(SIX).times(m.eps()));
            let (l, r) = (accuracy::exact(m.lambda), accuracy::exact(m.eps_ratio));
            let eps = accuracy::exact(m.eps());
            let (q, u) = (accuracy::step() * l, accuracy::unit());
            &&& l > 0 as real && q > 0 as real && u > 0 as real
            &&& 1000 as real * q <= l
            &&& 0 as real <= r * l <= l
            &&& h >= 0 as real && t >= 0 as real && s >= 0 as real && eps >= 0 as real
            &&& accuracy::within(h, l / 2 as real, q / 2 as real + u)
            &&& accuracy::within(t, 3 as real * l / 2 as real, 3 as real * q / 2 as real + u)
            &&& accuracy::within(eps, r * l / 12 as real, q / 3 as real + 3 as real * u)
            &&& accuracy::within(s, 6 as real * eps, q + 2 as real * u)
        }),
{
    lemma_ratio(m);
    lemma_terms(m);
    accuracy::lemma_constants();
    accuracy::lemma_least();
    let (half, more, six, twelve) = (
        Scalar::of_bits(HALF),
        Scalar::of_bits(ONE_AND_A_HALF),
        Scalar::of_bits(SIX),
        Scalar::of_bits(TWELVE),
    );
    let y = m.eps_ratio.times(m.lambda);
    accuracy::lemma_positive(m.lambda);
    accuracy::lemma_positive(m.eps_ratio);
    accuracy::lemma_counts(m.eps());
    accuracy::lemma_times_within(m.eps_ratio, m.lambda);
    accuracy::lemma_over_within(y, twelve);
    accuracy::lemma_times_within(six, m.eps());
    accuracy::lemma_times_within(half, m.lambda);
    accuracy::lemma_times_within(more, m.lambda);
    accuracy::lemma_counts(y);
    accuracy::lemma_counts(half.times(m.lambda));
    accuracy::lemma_counts(more.times(m.lambda));
    accuracy::lemma_counts(six.times(m.eps()));
    accuracy::lemma_constant(HALF, 1, 2);
    accuracy::lemma_constant(ONE_AND_A_HALF, 3, 2);
    accuracy::lemma_constant(SIX, 6, 1);
    accuracy::lemma_constant(TWELVE, 12, 1);
    let (l, r) = (accuracy::exact(m.lambda), accuracy::exact(m.eps_ratio));
    let (v, w) = (accuracy::exact(y), accuracy::exact(m.eps()));
    let (e, u) = (accuracy::step(), accuracy::unit());
    let (q, g) = (e * l, r * l);
    accuracy::lemma_step();
    lemma_small_share(l);
    lemma_small_share(u);
    lemma_small_share(q);
    accuracy::lemma_positive_product(e, l);
    accuracy::lemma_positive_product(r, l);
    accuracy::lemma_order(r, 1 as real, l);
    assert(1 as real * l == l);
    accuracy::lemma_order(g, l, e);
    assert((1int as real / 2int as real) * l == l / 2 as real);
    assert((3int as real / 2int as real) * l == 3 as real * l / 2 as real);
    assert(6int as real / 1int as real == 6 as real && 12int as real / 1int as real == 12 as real);
    assert(e * (l / 2 as real) == q / 2 as real && e * (3 as real * l / 2 as real) == 3 as real * q
        / 2 as real) by (nonlinear_arith)
        requires
            q == e * l,
    ;
    // The product, then its twelfth.
    assert(v <= l + q + u);
    accuracy::lemma_order(v, l + q + u, e);
    assert(e * (l + q + u) == q + e * q + e * u) by (nonlinear_arith)
        requires
            q == e * l,
    ;
    assert(e * (v / 12 as real) == (e * v) / 12 as real) by (nonlinear_arith);
    // Six times that.
    let top = l + 2 as real * q + 18 as real * u;
    assert(6 as real * w <= top);
    accuracy::lemma_order(6 as real * w, top, e);
    assert(e * top == q + 2 as real * (e * q) + 18 as real * (e * u)) by (nonlinear_arith)
        requires
            q == e * l,
            top == l + 2 as real * q + 18 as real * u,
    ;
}

/// A rounded difference of terms, in plain terms.
proof fn lemma_difference_within(a: Scalar, b: Scalar, l: real, k: real)
    requires
        accuracy::counts(a),
        accuracy::counts(b),
        l >= 0 as real,
        k >= 0 as real,
        k <= 2 as real,
        accuracy::exact(a) <= k * l + 20 as real * accuracy::unit(),
        accuracy::exact(b) <= k * l + 20 as real * accuracy::unit(),
    ensures
        a.minus(b).is_finite(),
        accuracy::within(
            accuracy::exact(a.minus(b)),
            accuracy::exact(a) - accuracy::exact(b),
            k * (accuracy::step() * l) + accuracy::unit(),
        ),
        accuracy::exact(a) > accuracy::exact(b) <==> accuracy::exact(a.minus(b)) > 0 as real,
{
    accuracy::lemma_minus_within(a, b);
    accuracy::lemma_counts(a);
    accuracy::lemma_counts(b);
    accuracy::lemma_step();
    let (x, y) = (accuracy::exact(a), accuracy::exact(b));
    let (e, u) = (accuracy::step(), accuracy::unit());
    lemma_small_share(u);
    let bound = k * l + 20 as real * u;
    assert(e * bound == k * (e * l) + 20 as real * (e * u)) by (nonlinear_arith)
        requires
            bound == k * l + 20 as real * u,
    ;
    if x >= y {
        accuracy::lemma_order(x - y, bound, e);
    } else {
        accuracy::lemma_order(y - x, bound, e);
    }
}

/// The coefficients against their terms.
proof fn lemma_coefficients(m: Model)
    requires
        bounded(m),
    ensures
        ({
            let half = Scalar::of_bits(HALF).times(m.lambda);
            let more = Scalar::of_bits(ONE_AND_A_HALF).times(m.lambda);
            let six = Scalar::of_bits(SIX).times(m.eps());
            let (h, t, s) = (accuracy::exact(half), accuracy::exact(more), accuracy::exact(six));
            let (a, b) = (accuracy::exact(m.m2()), accuracy::exact(m.delta()));
            let (q, u) = (accuracy::step() * accuracy::exact(m.lambda), accuracy::unit());
            &&& m.m2().is_finite()
            &&& accuracy::within(a, h - s, q + u)
            &&& accuracy::within(b, t - s, 2 as real * q + u)
            &&& a > 0 as real <==> h > s
        }),
{
    lemma_terms(m);
    lemma_sizes(m);
    let half = Scalar::of_bits(HALF).times(m.lambda);
    let more = Scalar::of_bits(ONE_AND_A_HALF).times(m.lambda);
    let six = Scalar::of_bits(SIX).times(m.eps());
    let l = accuracy::exact(m.lambda);
    let q = accuracy::step() * l;
    assert(1 as real * l == l && 1 as real * q == q);
    lemma_difference_within(half, six, l, 1 as real);
    lemma_difference_within(more, six, l, 2 as real);
}

/// The derived coefficients give the potential the shape it was asked for: the
/// broken phase, at `phi_b`, is stationary, and the vacuum energy released there
/// is the bag constant, both up to eight steps of the coupling and eight units.
/// The symmetric phase is metastable exactly if six bag constants stay below half
/// the coupling, and then there is a barrier between the phases.
pub proof fn law_potential_has_the_requested_shape(m: Model)
    requires
        bounded(m),
    ensures
        ({
            let margin = 8 as real * (accuracy::step() * accuracy::exact(m.lambda)) + 8 as real
                * accuracy::unit();
            let six = Scalar::of_bits(SIX).times(m.eps());
            let half = Scalar::of_bits(HALF).times(m.lambda);
            &&& m.m2().is_finite()
            &&& accuracy::within(slope(m, 1 as real), 0 as real, margin)
            &&& accuracy::within(potential(m, 1 as real), -accuracy::exact(m.eps()), margin)
            &&& Scalar::of_bits(ZERO).lt(m.m2()) <==> six.lt(half)
            &&& Scalar::of_bits(ZERO).lt(m.m2()) ==> exists|p: real|
                p > 0 as real && p < 1 as real && #[trigger] potential(m, p) > 0 as real
        }),
{
    lemma_terms(m);
    lemma_sizes(m);
    lemma_coefficients(m);
    let half = Scalar::of_bits(HALF).times(m.lambda);
    let six = Scalar::of_bits(SIX).times(m.eps());
    let l = accuracy::exact(m.lambda);
    let (a, b) = (accuracy::exact(m.m2()), accuracy::exact(m.delta()));
    assert(slope(m, 1 as real) == a - b + l) by {
        assert(1 as real * (a - b * 1 as real + l * (1 as real * 1 as real)) == a - b + l)
            by (nonlinear_arith);
    }
    assert(potential(m, 1 as real) == a / 2 as real - b / 3 as real + l / 4 as real) by {
        assert((1 as real * 1 as real) * (a / 2 as real - (b / 3 as real) * 1 as real + (l
            / 4 as real) * (1 as real * 1 as real)) == a / 2 as real - b / 3 as real + l
            / 4 as real) by (nonlinear_arith);
    }
    lemma_sign(m.m2());
    accuracy::lemma_exact_order(six, half);
    if Scalar::of_bits(ZERO).lt(m.m2()) {
        let p = lemma_barrier(a, b, l);
        assert(potential(m, p) > 0 as real);
    }
}

/// `1 - 3 2^-24`, the fourth number below one.
pub const LARGEST_SPLITTING: u32 = 0x3f7f_fffd;

/// The symmetric phase is metastable, behind a barrier, for every splitting of the
/// vacuum energy but the last three numbers below one, wherever the bag constant
/// is held to full precision.
pub proof fn law_symmetric_phase_is_metastable(m: Model)
    requires
        resolved(m),
        bounded(m),
        m.eps_ratio.le(Scalar::of_bits(LARGEST_SPLITTING)),
    ensures
        Scalar::of_bits(ZERO).lt(m.m2()),
        exists|p: real|
            p > 0 as real && p < 1 as real && #[trigger] potential(m, p) > 0 as real,
{
    law_potential_has_the_requested_shape(m);
    lemma_ratio(m);
    lemma_terms(m);
    lemma_coupling(m);
    accuracy::lemma_constants();
    let (r, l, eps) = (m.eps_ratio, m.lambda, m.eps());
    let (six, twelve) = (Scalar::of_bits(SIX), Scalar::of_bits(TWELVE));
    let y = r.times(l);
    accuracy::lemma_positive(r);
    accuracy::lemma_positive(l);
    accuracy::lemma_positive(eps);
    accuracy::lemma_positive(y);
    accuracy::lemma_times_upper(r, l);
    accuracy::lemma_over_upper(y, twelve);
    accuracy::lemma_least();
    if eps.bits > BINADE {
        scalar::lemma_units_order(BINADE as nat, eps.bits as nat);
    }
    let (z, ue, us) = (
        scalar::one_units(),
        scalar::units(eps.bits as nat),
        scalar::units(SIX as nat),
    );
    assert(us * ue >= z * BINADE) by (nonlinear_arith)
        requires
            us == 6 * z,
            z > 0,
            ue >= BINADE,
    ;
    accuracy::lemma_normal_product(six, eps);
    accuracy::lemma_times_upper(six, eps);
    accuracy::lemma_constant(SIX, 6, 1);
    accuracy::lemma_constant(TWELVE, 12, 1);
    assert(6int as real / 1int as real == 6 as real && 12int as real / 1int as real == 12 as real);
    // Half the coupling is exact.
    scalar::lemma_half(l);
    let half = Scalar::of_bits(HALF).times(l);
    accuracy::lemma_counts(half);
    let (x, d) = (accuracy::exact(l), accuracy::exact(half));
    assert(2 as real * d == x) by {
        let (v, w, o) = (
            scalar::units(half.bits as nat) as real,
            scalar::units(l.bits as nat) as real,
            z as real,
        );
        assert(w == 2 as real * v);
        accuracy::lemma_quotient_back(v, o);
        accuracy::lemma_quotient_back(w, o);
        assert((2 as real * (v / o)) * o == 2 as real * ((v / o) * o)) by (nonlinear_arith);
        lemma_drop(2 as real * (v / o), w / o, o);
    }
    lemma_largest_splitting(r);
    lemma_below_half(
        accuracy::exact(r),
        x,
        accuracy::exact(y),
        accuracy::exact(eps),
        accuracy::exact(six.times(eps)),
    );
    accuracy::lemma_counts(six.times(eps));
    accuracy::lemma_exact_order(six.times(eps), half);
}

/// Three roundings up do not carry six bag constants to half the coupling.
proof fn lemma_below_half(r: real, l: real, y: real, eps: real, s: real)
    requires
        l > 0 as real,
        r <= 1 as real - 3 as real * (accuracy::step() / 2 as real),
        y * (1 as real - accuracy::step() / 2 as real) <= r * l,
        eps * (1 as real - accuracy::step() / 2 as real) <= y / 12 as real,
        s * (1 as real - accuracy::step() / 2 as real) <= 6 as real * eps,
    ensures
        2 as real * s < l,
{
    accuracy::lemma_step();
    let h = accuracy::step() / 2 as real;
    let k = 1 as real - h;
    accuracy::lemma_order(s * k, 6 as real * eps, k);
    assert((6 as real * eps) * k == 6 as real * (eps * k)) by (nonlinear_arith);
    assert((s * k) * k <= y / 2 as real);
    accuracy::lemma_order((s * k) * k, y / 2 as real, k);
    assert((y / 2 as real) * k == (y * k) / 2 as real) by (nonlinear_arith);
    let c = (k * k) * k;
    assert(((s * k) * k) * k == c * s) by (nonlinear_arith)
        requires
            c == (k * k) * k,
    ;
    let b = 1 as real - 3 as real * h;
    accuracy::lemma_order(r, b, l);
    assert(c > b) by (nonlinear_arith)
        requires
            c == (k * k) * k,
            k == 1 as real - h,
            b == 1 as real - 3 as real * h,
            h > 0 as real,
            h < 1 as real,
    ;
    assert(b > 0 as real);
    assert(b * l < c * l) by (nonlinear_arith)
        requires
            b < c,
            l > 0 as real,
    ;
    if 2 as real * s >= l {
        accuracy::lemma_order(l, 2 as real * s, c);
        assert(c * (2 as real * s) == 2 as real * (c * s)) by (nonlinear_arith);
    }
}

/// A splitting no larger than the fourth number below one.
proof fn lemma_largest_splitting(r: Scalar)
    requires
        accuracy::positive(r),
        r.le(Scalar::of_bits(LARGEST_SPLITTING)),
    ensures
        accuracy::exact(r) <= 1 as real - 3 as real * (accuracy::step() / 2 as real),
{
    lemma2_to64();
    accuracy::lemma_positive(r);
    accuracy::lemma_step();
    rounding::lemma_pow2_sum(24, 125);
    assert(scalar::significand(LARGEST_SPLITTING as nat) == 0xff_fffd && scalar::exponent(
        LARGEST_SPLITTING as nat,
    ) == 125);
    let end = Scalar::of_bits(LARGEST_SPLITTING);
    accuracy::lemma_positive(end);
    let p = pow2(125);
    assert(scalar::units(LARGEST_SPLITTING as nat) == 0xff_fffd * p);
    assert(scalar::one_units() == 0x100_0000 * p);
    accuracy::lemma_constant(LARGEST_SPLITTING, 0xff_fffd, 0x100_0000);
    let (u, v, z) = (
        scalar::units(r.bits as nat) as real,
        scalar::units(end.bits as nat) as real,
        scalar::one_units() as real,
    );
    assert(u / z <= v / z) by (nonlinear_arith)
        requires
            u <= v,
            z > 0 as real,
    ;
    let e = accuracy::step();
    assert(0xff_fffd as real / 0x100_0000 as real == 1 as real - 3 as real * (e / 2 as real))
        by (nonlinear_arith)
        requires
            0x80_0000 as real * e == 1 as real,
    ;
}

/// As the splitting of the vacuum energy goes to zero, the potential becomes the
/// symmetric double well `lambda / 4 phi^2 (phi - phi_b)^2`: the curvature goes to
/// half the coupling and the cubic coefficient to one and a half times it.
pub proof fn law_degenerate_limit_is_the_double_well(m: Model)
    requires
        bounded(m),
    ensures
        ({
            let (l, r) = (accuracy::exact(m.lambda), accuracy::exact(m.eps_ratio));
            let margin = r * l / 2 as real + 8 as real * (accuracy::step() * l) + 32 as real
                * accuracy::unit();
            &&& accuracy::within(accuracy::exact(m.m2()), l / 2 as real, margin)
            &&& accuracy::within(accuracy::exact(m.delta()), 3 as real * l / 2 as real, margin)
        }),
{
    lemma_sizes(m);
    lemma_coefficients(m);
}

/// A number is positive exactly if it stands for something positive.
proof fn lemma_sign(x: Scalar)
    requires
        x.is_finite(),
    ensures
        accuracy::exact(x) > 0 as real <==> Scalar::of_bits(ZERO).lt(x),
{
    lemma_pow2_pos(149);
    scalar::lemma_units_zero(0);
    let (v, z) = (x.value() as real, scalar::one_units() as real);
    if x.value() <= 0 {
        assert(v / z <= 0 as real) by (nonlinear_arith)
            requires
                v <= 0 as real,
                z > 0 as real,
        ;
    } else {
        accuracy::lemma_quotient_back(v, z);
    }
}

/// Between the phases there is a field value with positive energy.
proof fn lemma_barrier(a: real, b: real, l: real) -> (p: real)
    requires
        a > 0 as real,
        l > 0 as real,
    ensures
        p > 0 as real,
        p < 1 as real,
        (p * p) * (a / 2 as real - (b / 3 as real) * p + (l / 4 as real) * (p * p)) > 0 as real,
{
    let p = if b > 0 as real {
        a / (a + b)
    } else {
        1 as real / 2 as real
    };
    if b > 0 as real {
        accuracy::lemma_quotient_back(a, a + b);
        assert(p < 1 as real) by (nonlinear_arith)
            requires
                p * (a + b) == a,
                a > 0 as real,
                b > 0 as real,
        ;
        assert(b * p <= a) by (nonlinear_arith)
            requires
                p * (a + b) == a,
                p > 0 as real,
                a > 0 as real,
        ;
    } else {
        accuracy::lemma_order(b, 0 as real, p);
    }
    assert((b / 3 as real) * p == (b * p) / 3 as real) by (nonlinear_arith);
    accuracy::lemma_positive_product(p, p);
    accuracy::lemma_positive_product(l / 4 as real, p * p);
    accuracy::lemma_positive_product(
        p * p,
        a / 2 as real - (b / 3 as real) * p + (l / 4 as real) * (p * p),
    );
    p
}

// ---------------------------------------------------------------------------
//  The plasma
// ---------------------------------------------------------------------------

/// The reference energy of the plasma is the bag constant over the transition
/// strength, up to two steps, and, in units where the reference temperature is
/// one, it is the radiation constant.
pub proof fn law_plasma_follows_the_strength(m: Model)
    requires
        resolved(m),
        accuracy::positive(m.alpha),
        accuracy::normal(m.e_ref()),
    ensures
        accuracy::near(
            accuracy::exact(m.e_ref()) * accuracy::exact(m.alpha),
            accuracy::exact(m.eps()),
            2,
        ),
        m.t_ref() == Scalar::of_bits(ONE),
        m.a_rad() == m.e_ref(),
{
    lemma_ones();
    accuracy::lemma_positive(m.alpha);
    accuracy::lemma_positive(m.eps());
    accuracy::lemma_positive(m.e_ref());
    accuracy::lemma_over_near(m.eps(), m.alpha);
    accuracy::lemma_over_one(m.e_ref());
    let (e, a) = (accuracy::exact(m.eps()), accuracy::exact(m.alpha));
    accuracy::lemma_quotient_back(e, a);
    lemma_near_itself(a);
    accuracy::lemma_near_product(accuracy::exact(m.e_ref()), e / a, 1, a, a, 0);
}

// ---------------------------------------------------------------------------
//  The scales of a wall and its bubble
// ---------------------------------------------------------------------------

/// The surface tension is held to full precision, and is the root of the
/// coupling over seventy-two.
proof fn lemma_tension(m: Model)
    requires
        resolved(m),
    ensures
        accuracy::normal(m.surface_tension()),
        scalar::units(m.surface_tension().bits as nat) >= pow2(70),
        accuracy::exact(m.surface_tension()) <= 2 as real * far(),
        ({
            let t = accuracy::exact(m.surface_tension());
            accuracy::near(72 as real * (t * t), accuracy::exact(m.lambda), 11)
        }),
{
    let (two, six) = (Scalar::of_bits(TWO), Scalar::of_bits(SIX));
    lemma_ones();
    lemma_coupling(m);
    accuracy::lemma_constants();
    let h = m.lambda.over(two);
    let s = h.sqrt();
    let tension = m.surface_tension();
    accuracy::lemma_positive(m.lambda);
    let z = scalar::one_units();
    let ul = scalar::units(m.lambda.bits as nat);
    assert(ul * z <= (2 * z) * ul && ul * z >= (2 * z) * BINADE) by (nonlinear_arith)
        requires
            ul >= 2 * BINADE,
            z > 0,
    ;
    scalar::lemma_over_bounded(m.lambda, two, m.lambda.bits as nat);
    accuracy::lemma_normal_quotient(m.lambda, two);
    accuracy::lemma_positive(h);
    accuracy::lemma_over_near(m.lambda, two);
    accuracy::lemma_sqrt_near(h);
    accuracy::lemma_positive(s);
    scalar::lemma_times_one(s);
    assert(tension == s.over(six));
    lemma_far_above();
    let us = scalar::units(s.bits as nat);
    assert(us * z >= scalar::units(SIX as nat) * BINADE && us * z <= scalar::units(SIX as nat) * us)
        by (nonlinear_arith)
        requires
            us >= 6 * BINADE,
            scalar::units(SIX as nat) == 6 * z,
            z > 0,
    ;
    scalar::lemma_over_bounded(s, six, s.bits as nat);
    accuracy::lemma_normal_quotient(s, six);
    accuracy::lemma_over_near(s, six);
    accuracy::lemma_positive(tension);
    accuracy::lemma_constant(TWO, 2, 1);
    accuracy::lemma_constant(SIX, 6, 1);
    assert(accuracy::exact(two) == 2 as real && accuracy::exact(six) == 6 as real);
    let (l, x, y, t) = (
        accuracy::exact(m.lambda),
        accuracy::exact(h),
        accuracy::exact(s),
        accuracy::exact(tension),
    );
    // The root is s, and s s is near l / 2.
    accuracy::lemma_near_joins(y * y, x, 3, l / 2 as real, 1);
    let c = y / 6 as real;
    accuracy::lemma_near_product(t, c, 1, t, c, 1);
    lemma_near_itself(72 as real);
    accuracy::lemma_positive_product(c, c);
    accuracy::lemma_near_product(72 as real, 72 as real, 0, t * t, c * c, 3);
    assert(72 as real * (c * c) == 2 as real * (y * y)) by (nonlinear_arith)
        requires
            c == y / 6 as real,
    ;
    lemma_near_itself(2 as real);
    accuracy::lemma_near_product(2 as real, 2 as real, 0, y * y, l / 2 as real, 5);
    assert(2 as real * (l / 2 as real) == l);
    accuracy::lemma_near_joins(72 as real * (t * t), 2 as real * (y * y), 4, l, 6);
    lemma_tension_units(us, tension, s);
    lemma_root_bounded(s);
    accuracy::lemma_near_within(t, c, 1);
    lemma_small_share(c);
}

proof fn lemma_tension_units(us: nat, tension: Scalar, s: Scalar)
    requires
        accuracy::positive(s),
        us == scalar::units(s.bits as nat),
        us >= pow2(73),
        tension == s.over(Scalar::of_bits(SIX)),
        accuracy::normal(tension),
    ensures
        scalar::units(tension.bits as nat) >= pow2(70),
{
    reveal(Scalar::over_spec);
    accuracy::lemma_constants();
    accuracy::lemma_positive(s);
    accuracy::lemma_positive(tension);
    let z = scalar::one_units();
    let bits: u32 = 0x1800_0000;
    lemma2_to64();
    rounding::lemma_pow2_sum(23, 47);
    rounding::lemma_pow2_sum(3, 70);
    assert(scalar::significand(bits as nat) == 0x80_0000 && scalar::exponent(bits as nat) == 47);
    let p = pow2(70);
    let d = 6 * z;
    let n = us * z;
    assert(p * d <= n) by (nonlinear_arith)
        requires
            us >= 8 * p,
            d == 6 * z,
            n == us * z,
            p > 0,
            z > 0,
    ;
    rounding::lemma_round_monotone(p * d, n, d);
    rounding::lemma_round_scales(p, 1, d);
    assert(p * d == d * p && d * 1 == d) by (nonlinear_arith);
    scalar::lemma_round_exact(bits as nat);
    scalar::lemma_signed(false, rounding::round_magnitude(n, d));
    if tension.bits > bits {
        scalar::lemma_units_order(bits as nat, tension.bits as nat);
    }
}

/// The bag constant is a twelfth of the splitting times the coupling, the wall
/// thickness squared times the coupling is eight, and the surface tension squared
/// is the coupling over seventy-two; the critical radius times the bag constant
/// is twice the surface tension.
pub proof fn law_scales_follow_the_coupling(m: Model)
    requires
        resolved(m),
    ensures
        ({
            let (l, r) = (accuracy::exact(m.lambda), accuracy::exact(m.eps_ratio));
            let (eps, w, t) = (
                accuracy::exact(m.eps()),
                accuracy::exact(m.wall_width()),
                accuracy::exact(m.surface_tension()),
            );
            &&& eps > 0 as real && w > 0 as real && t > 0 as real
            &&& accuracy::near(12 as real * eps, r * l, 4)
            &&& accuracy::near((w * w) * l, 8 as real, 14)
            &&& accuracy::near(72 as real * (t * t), l, 11)
            &&& m.critical_radius().is_finite() ==> accuracy::near(
                accuracy::exact(m.critical_radius()) * eps,
                2 as real * t,
                4,
            )
        }),
{
    lemma_ratio(m);
    lemma_coupling(m);
    lemma_eps(m);
    lemma_wall(m);
    lemma_tension(m);
    accuracy::lemma_positive(m.lambda);
    accuracy::lemma_positive(m.eps_ratio);
    accuracy::lemma_positive(m.eps());
    accuracy::lemma_positive(m.wall_width());
    accuracy::lemma_positive(m.surface_tension());
    let (l, r) = (accuracy::exact(m.lambda), accuracy::exact(m.eps_ratio));
    let (eps, w, t) = (
        accuracy::exact(m.eps()),
        accuracy::exact(m.wall_width()),
        accuracy::exact(m.surface_tension()),
    );
    let bag = (r * l) / 12 as real;
    accuracy::lemma_positive_product(r, l);
    lemma_near_itself(12 as real);
    accuracy::lemma_near_product(12 as real, 12 as real, 0, eps, bag, 3);
    assert(12 as real * bag == r * l);
    lemma_near_itself(l);
    accuracy::lemma_quotient_back(8 as real, l);
    accuracy::lemma_near_product(w * w, 8 as real / l, 13, l, l, 0);
    if m.critical_radius().is_finite() {
        lemma_radius(m);
        accuracy::lemma_constants();
        let two = Scalar::of_bits(TWO);
        let twice = two.times(m.surface_tension());
        accuracy::lemma_finite_quotient(twice, m.eps());
        let (z, ut) = (scalar::one_units(), scalar::units(m.surface_tension().bits as nat));
        accuracy::lemma_least();
        if m.surface_tension().bits > BINADE {
            scalar::lemma_units_order(BINADE as nat, m.surface_tension().bits as nat);
        }
        assert(scalar::units(TWO as nat) * ut >= z * BINADE) by (nonlinear_arith)
            requires
                ut >= BINADE,
                scalar::units(TWO as nat) == 2 * z,
                z > 0,
        ;
        accuracy::lemma_normal_product(two, m.surface_tension());
        accuracy::lemma_times_near(two, m.surface_tension());
        accuracy::lemma_constant(TWO, 2, 1);
        assert(accuracy::exact(two) == 2 as real);
        accuracy::lemma_positive(twice);
        accuracy::lemma_over_near(twice, m.eps());
        accuracy::lemma_positive(m.critical_radius());
        let (c, v) = (accuracy::exact(m.critical_radius()), accuracy::exact(twice));
        accuracy::lemma_quotient_back(v, eps);
        lemma_near_itself(eps);
        accuracy::lemma_near_product(c, v / eps, 1, eps, eps, 0);
        accuracy::lemma_near_joins(c * eps, v, 2, 2 as real * t, 1);
    }
}

/// The wall thickness is finite.
pub proof fn lemma_wall_is_finite(m: Model)
    requires
        resolved(m),
    ensures
        m.wall_width().is_finite(),
{
    lemma_wall(m);
    accuracy::lemma_positive(m.wall_width());
}

/// The sound speed of a relativistic plasma squares to a third.
pub proof fn law_sound_speed_squares_to_a_third(m: Model)
    ensures
        accuracy::positive(m.sound_speed()),
        ({
            let c = accuracy::exact(m.sound_speed());
            accuracy::near(3 as real * (c * c), 1 as real, 6)
        }),
{
    let (one, three) = (Scalar::of_bits(ONE), Scalar::of_bits(scalar::THREE));
    accuracy::lemma_constants();
    lemma2_to64();
    rounding::lemma_pow2_sum(23, 127);
    rounding::lemma_pow2_sum(1, 126);
    rounding::lemma_pow2_sum(1, 127);
    rounding::lemma_pow2_sum(23, 126);
    assert(scalar::significand(scalar::THREE as nat) == 0xc0_0000 && scalar::exponent(
        scalar::THREE as nat,
    ) == 127);
    assert(scalar::units(scalar::THREE as nat) == 3 * scalar::one_units());
    accuracy::lemma_constant(scalar::THREE, 3, 1);
    accuracy::lemma_constant(ONE, 1, 1);
    assert(accuracy::exact(one) == 1 as real && accuracy::exact(three) == 3 as real);
    lemma_pow2_strictly_increases(2, 100);
    let f = accuracy::far();
    assert(f >= 4 as real);
    accuracy::lemma_over_in_range(one, three);
    accuracy::lemma_over_near(one, three);
    let a = one.over(three);
    accuracy::lemma_positive(a);
    accuracy::lemma_sqrt_near(a);
    let c = accuracy::exact(m.sound_speed());
    let third = 1 as real / 3 as real;
    accuracy::lemma_near_joins(c * c, accuracy::exact(a), 3, third, 1);
    lemma_near_itself(3 as real);
    accuracy::lemma_near_product(3 as real, 3 as real, 0, c * c, third, 5);
    assert(3 as real * third == 1 as real);
}

/// A bubble is stamped in at the chosen number of cells or multiple of the
/// critical radius, but never below a quarter of a cell.
pub proof fn law_seed_radius_is_the_chosen_size(m: Model)
    requires
        physics::model_fault(m) is None,
        accuracy::positive(m.dx),
        m.seed_radius().is_finite(),
        match m.seed_size {
            SeedSize::Critical(k) => accuracy::positive(k) && accuracy::positive(
                m.critical_radius(),
            ),
            SeedSize::Cells(r) => accuracy::positive(r),
        },
    ensures
        ({
            let r = accuracy::exact(m.seed_radius());
            let dx = accuracy::exact(m.dx);
            let (e, u) = (accuracy::step(), accuracy::unit());
            let wanted = match m.seed_size {
                SeedSize::Critical(k) => accuracy::exact(k) * accuracy::exact(m.critical_radius()),
                SeedSize::Cells(x) => accuracy::exact(x),
            };
            let least = dx / 4 as real;
            let larger = if wanted >= least {
                wanted
            } else {
                least
            };
            accuracy::within(r, larger, e * larger + u)
        }),
{
    let quarter = Scalar::of_bits(QUARTER);
    lemma_quarter();
    accuracy::lemma_positive(m.dx);
    accuracy::lemma_positive(quarter);
    let q = quarter.times(m.dx);
    let (z, ud, uq) = (
        scalar::one_units(),
        scalar::units(m.dx.bits as nat),
        scalar::units(QUARTER as nat),
    );
    assert(q.is_finite()) by {
        reveal(Scalar::times_spec);
        assert(uq * ud <= z * ud) by (nonlinear_arith)
            requires
                uq <= z,
                ud >= 0,
        ;
        scalar::lemma_round_bounded(uq * ud, z, m.dx.bits as nat);
        scalar::lemma_signed(false, rounding::round_magnitude(uq * ud, z));
    }
    accuracy::lemma_times_within(quarter, m.dx);
    accuracy::lemma_counts(q);
    let dx = accuracy::exact(m.dx);
    assert((1int as real / 4int as real) * dx == dx / 4 as real);
    accuracy::lemma_step();
    let (e, u) = (accuracy::step(), accuracy::unit());
    let least = dx / 4 as real;
    let (w, x) = match m.seed_size {
        SeedSize::Critical(k) => {
            accuracy::lemma_positive(k);
            accuracy::lemma_positive(m.critical_radius());
            lemma_product_counts(k, m.critical_radius(), q);
            accuracy::lemma_times_within(k, m.critical_radius());
            (k.times(m.critical_radius()), accuracy::exact(k) * accuracy::exact(
                m.critical_radius(),
            ))
        },
        SeedSize::Cells(r) => (r, accuracy::exact(r)),
    };
    accuracy::lemma_counts(w);
    match m.seed_size {
        SeedSize::Critical(k) => {
            accuracy::lemma_positive_product(accuracy::exact(k), accuracy::exact(m.critical_radius()));
        },
        SeedSize::Cells(r) => {},
    }
    accuracy::lemma_order(0 as real, x, e);
    accuracy::lemma_exact_order(w, q);
    assert(m.seed_radius() == w || m.seed_radius() == q);
    if x >= least {
        accuracy::lemma_order(least, x, e);
    } else {
        accuracy::lemma_order(x, least, e);
    }
}

/// A product is finite where the larger of it and another number is.
proof fn lemma_product_counts(a: Scalar, b: Scalar, c: Scalar)
    requires
        accuracy::positive(a),
        accuracy::positive(b),
        accuracy::counts(c),
        a.times(b).max(c).is_finite(),
    ensures
        a.times(b).is_finite(),
{
    reveal(Scalar::times_spec);
    accuracy::lemma_positive(a);
    accuracy::lemma_positive(b);
    accuracy::lemma_counts(c);
    let n = scalar::units(a.bits as nat) * scalar::units(b.bits as nat);
    let r = rounding::round_magnitude(n, scalar::one_units());
    scalar::lemma_signed(false, r);
    if r >= INFINITE {
        scalar::lemma_units_order(c.bits as nat, r);
    }
}

proof fn lemma_quarter()
    ensures
        accuracy::exact(Scalar::of_bits(QUARTER)) == 1int as real / 4int as real,
        4 * scalar::units(QUARTER as nat) == scalar::one_units(),
{
    lemma2_to64();
    rounding::lemma_pow2_sum(23, 124);
    rounding::lemma_pow2_sum(2, 147);
    assert(scalar::significand(QUARTER as nat) == 0x80_0000 && scalar::exponent(QUARTER as nat)
        == 124);
    accuracy::lemma_constant(QUARTER, 1, 4);
}

// ---------------------------------------------------------------------------
//  The force balance of a moving wall
// ---------------------------------------------------------------------------

/// The friction that a wall feels: at least a millionth.
pub open spec fn friction(m: Model) -> real {
    let least = 1 as real / 1_000_000 as real;
    if accuracy::exact(m.eta) >= least {
        accuracy::exact(m.eta)
    } else {
        least
    }
}

/// What drives a wall, against what holds it back: the vacuum energy released
/// over friction times surface tension.
pub open spec fn drive(m: Model) -> real {
    accuracy::exact(m.eps()) / (friction(m) * accuracy::exact(m.surface_tension()))
}

/// Whether a wall has a drive of moderate size, against a drag of moderate size.
pub open spec fn driven(m: Model) -> bool {
    &&& resolved(m)
    &&& m.eta.is_finite()
    &&& friction(m) * accuracy::exact(m.surface_tension()) <= 1_000_000 as real
    &&& drive(m) <= 1_000_000 as real
    &&& 1_000_000 as real * drive(m) >= 1 as real
}

/// The least friction is a millionth up to a step.
proof fn lemma_least_friction()
    ensures
        accuracy::normal(Scalar::of_bits(physics::MIN_FRICTION)),
        accuracy::near(
            accuracy::exact(Scalar::of_bits(physics::MIN_FRICTION)),
            1 as real / 1_000_000 as real,
            1,
        ),
{
    let bits = physics::MIN_FRICTION;
    lemma2_to64();
    assert(scalar::significand(bits as nat) == 0x86_37bd && scalar::exponent(bits as nat) == 106);
    rounding::lemma_pow2_sum(43, 106);
    rounding::lemma_pow2_sum(20, 23);
    let p = pow2(106);
    assert(pow2(43) == 0x800_0000_0000);
    assert(scalar::units(bits as nat) == 0x86_37bd * p);
    assert(scalar::one_units() == 0x800_0000_0000 * p);
    accuracy::lemma_constant(bits, 0x86_37bd, 0x800_0000_0000);
    let x = accuracy::exact(Scalar::of_bits(bits));
    accuracy::lemma_step();
    let e = accuracy::step();
    let t = 1 as real / 1_000_000 as real;
    assert(0x800_0000_0000 as real * x == 0x86_37bd as real) by (nonlinear_arith)
        requires
            x == 0x86_37bdint as real / 0x800_0000_0000int as real,
    ;
    assert(0x80_0000 as real * (e * t) == t) by (nonlinear_arith)
        requires
            0x80_0000 as real * e == 1 as real,
    ;
    assert(t * (1 as real - 1int as real * e) == t - e * t && t * (1 as real + 1int as real * e) == t
        + e * t) by (nonlinear_arith);
}

/// The computed friction is the friction, up to a step.
proof fn lemma_friction(m: Model)
    requires
        physics::model_fault(m) is None,
        m.eta.is_finite(),
    ensures
        ({
            let f = m.eta.max(Scalar::of_bits(physics::MIN_FRICTION));
            &&& accuracy::positive(f)
            &&& accuracy::near(accuracy::exact(f), friction(m), 1)
            &&& friction(m) > 0 as real
            &&& 2_000_000 as real * accuracy::exact(f) >= 1 as real
        }),
{
    lemma_least_friction();
    let least = Scalar::of_bits(physics::MIN_FRICTION);
    let t = 1 as real / 1_000_000 as real;
    accuracy::lemma_positive(least);
    scalar::lemma_units_zero(0);
    scalar::lemma_units_zero(m.eta.magnitude());
    accuracy::lemma_step();
    let (x, y) = (accuracy::exact(m.eta), accuracy::exact(least));
    accuracy::lemma_near_within(y, t, 1);
    lemma_small_share(t);
    if m.eta.negative() {
        // Only a zero with a sign is accepted.
        assert(m.eta.magnitude() == 0);
        lemma_pow2_pos(149);
        let z = scalar::one_units() as real;
        assert(0 as real / z == 0 as real) by (nonlinear_arith)
            requires
                z > 0 as real,
        ;
        assert(x == 0 as real);
        assert(m.eta.value() == 0);
    } else {
        assert(accuracy::counts(m.eta));
        accuracy::lemma_counts(m.eta);
        accuracy::lemma_exact_order(m.eta, least);
        accuracy::lemma_exact_order(least, m.eta);
        lemma_near_itself(x);
        if x >= y {
            if x >= t {
                accuracy::lemma_near_widens(x, x, 0, 1);
            } else {
                accuracy::lemma_positive_product(t, 1int as real * accuracy::step());
                assert(t * (1 as real + 1int as real * accuracy::step()) == t + t * (1int as real
                    * accuracy::step())) by (nonlinear_arith);
            }
        } else if x >= t {
            // t <= x < y <= t (1 + e)
            let c = 1int as real * accuracy::step();
            accuracy::lemma_order(t, x, 1 as real + c);
            accuracy::lemma_order(t, x, c);
            assert(x * (1 as real - c) == x - x * c && t * (1 as real + c) == t + t * c)
                by (nonlinear_arith);
            accuracy::lemma_order(0 as real, x, c);
        }
    }
}

/// Solving the force balance in computed numbers, step by step.
proof fn lemma_balance(x: Scalar)
    requires
        accuracy::positive(x),
        accuracy::exact(x) <= 2_000_000 as real,
        2_000_000 as real * accuracy::exact(x) >= 1 as real,
    ensures
        ({
            let v = x.over(Scalar::of_bits(ONE).plus(x.times(x)).sqrt());
            let (a, b) = (accuracy::exact(v), accuracy::exact(x));
            &&& accuracy::positive(v)
            &&& accuracy::near(a * a, (b * b) / (1 as real + b * b), 12)
        }),
{
    let one = Scalar::of_bits(ONE);
    accuracy::lemma_constants();
    accuracy::lemma_constant(ONE, 1, 1);
    assert(accuracy::exact(one) == 1 as real);
    accuracy::lemma_positive(one);
    accuracy::lemma_positive(x);
    lemma_far_is_far();
    let b = accuracy::exact(x);
    let q = b * b;
    accuracy::lemma_positive_product(b, b);
    let big = 2_000_000 as real;
    lemma_square_bounds(b, big);
    let f = accuracy::far();
    accuracy::lemma_order(big * big, f, q);
    accuracy::lemma_times_in_range(x, x);
    accuracy::lemma_times_near(x, x);
    let xx = x.times(x);
    let c = accuracy::exact(xx);
    accuracy::lemma_positive(xx);
    accuracy::lemma_near_within(c, q, 1);
    lemma_small_share(q);
    accuracy::lemma_plus_in_range(one, xx);
    let w = one.plus(xx);
    let d = accuracy::exact(w);
    accuracy::lemma_near_within(d, 1 as real + c, 1);
    lemma_small_share(1 as real + c);
    scalar::lemma_units_zero(0);
    accuracy::lemma_counts(w);
    assert(w.bits > 0) by {
        if w.bits == 0 {
            lemma_exact_zero(w);
        }
    }
    accuracy::lemma_sqrt_near(w);
    let r = w.sqrt();
    accuracy::lemma_positive(r);
    let s = accuracy::exact(r);
    // The root against one plus the square.
    accuracy::lemma_near_past_one(c, q, 1);
    accuracy::lemma_near_joins(d, 1 as real + c, 1, 1 as real + q, 1);
    accuracy::lemma_near_joins(s * s, d, 3, 1 as real + q, 3);
    accuracy::lemma_near_within(s * s, 1 as real + q, 7);
    lemma_small_share(1 as real + q);
    // One half <= s <= far.
    lemma_root_of(s, 4 as real * (1 as real + q));
    assert(s <= 4 as real * (1 as real + q));
    assert(2 as real * s >= 1 as real) by {
        if 2 as real * s < 1 as real {
            accuracy::lemma_order(s, 1 as real / 2 as real, s);
        }
    }
    assert(b <= f * s) by {
        accuracy::lemma_order(1 as real / 2 as real, s, f);
    }
    assert(s <= f * b) by {
        accuracy::lemma_order(1 as real / big, b, f);
        assert(f * (1 as real / big) == f / big) by (nonlinear_arith)
            requires
                big > 0 as real,
        ;
    }
    accuracy::lemma_over_in_range(x, r);
    accuracy::lemma_over_near(x, r);
    let v = x.over(r);
    accuracy::lemma_positive(v);
    let (a, t) = (accuracy::exact(v), b / s);
    accuracy::lemma_quotient_back(b, s);
    accuracy::lemma_near_product(a, t, 1, a, t, 1);
    accuracy::lemma_positive_product(s, s);
    lemma_near_itself(q);
    accuracy::lemma_near_ratio(q, q, 0, s * s, 1 as real + q, 7);
    assert(t * t == q / (s * s)) by {
        accuracy::lemma_quotient_back(q, s * s);
        assert((t * t) * (s * s) == q) by (nonlinear_arith)
            requires
                t * s == b,
                q == b * b,
        ;
        lemma_drop(t * t, q / (s * s), s * s);
    }
    accuracy::lemma_quotient_back(q, 1 as real + q);
    accuracy::lemma_near_joins(a * a, t * t, 3, q / (1 as real + q), 8);
}

/// Only zero is without units.
proof fn lemma_exact_zero(x: Scalar)
    requires
        x.bits == 0,
    ensures
        accuracy::exact(x) == 0 as real,
{
    scalar::lemma_units_zero(0);
    accuracy::lemma_counts(x);
    let z = scalar::one_units() as real;
    assert(0 as real / z == 0 as real) by (nonlinear_arith)
        requires
            z > 0 as real,
    ;
}

/// A root of something of at least one is no larger than it.
proof fn lemma_root_of(s: real, t: real)
    requires
        s > 0 as real,
        s * s <= t,
        t >= 1 as real,
    ensures
        s <= t,
{
    if s > t {
        accuracy::lemma_order(1 as real, s, s);
    }
}

proof fn lemma_square_bounds(b: real, big: real)
    requires
        b > 0 as real,
        big > 0 as real,
        b <= big,
        big * b >= 1 as real,
    ensures
        b * b <= big * big,
        (big * big) * (b * b) >= 1 as real,
{
    accuracy::lemma_order(b, big, b);
    accuracy::lemma_order(b, big, big);
    let c = big * b;
    accuracy::lemma_order(1 as real, c, c);
    assert(c * c == (big * big) * (b * b)) by (nonlinear_arith)
        requires
            c == big * b,
    ;
}

/// `2^100` is beyond a square of millions.
proof fn lemma_far_is_far()
    ensures
        accuracy::far() >= 1_000_000_000_000_000_000 as real * 1_000_000_000 as real,
{
    lemma2_to64();
    rounding::lemma_pow2_sum(64, 36);
    lemma_pow2_strictly_increases(32, 36);
    let (p, q, f) = (pow2(64), pow2(36), pow2(100));
    assert(f >= 1_000_000_000_000_000_000 * 1_000_000_000) by (nonlinear_arith)
        requires
            f == p * q,
            p >= 1_000_000_000_000_000_000,
            q >= 1_000_000_000,
    ;
}

/// The estimated wall velocity solves the force balance `gamma v = x` for a drive
/// of `x`: in exact numbers `v^2 (1 + x^2)` is `x^2`, up to forty-eight steps.  For
/// a drive of at most two hundred and fifty-six it stays below the speed of light.
pub proof fn law_wall_velocity_balances_the_forces(m: Model)
    requires
        driven(m),
    ensures
        ({
            let v = accuracy::exact(m.estimated_wall_velocity());
            let x = drive(m);
            &&& v > 0 as real
            &&& accuracy::near((v * v) * (1 as real + x * x), x * x, 48)
            &&& x <= 256 as real ==> v < 1 as real
        }),
{
    lemma_friction(m);
    lemma_tension(m);
    lemma_far_is_far();
    let f = m.eta.max(Scalar::of_bits(physics::MIN_FRICTION));
    let (sigma, eps) = (m.surface_tension(), m.eps());
    accuracy::lemma_positive(f);
    accuracy::lemma_positive(sigma);
    accuracy::lemma_positive(eps);
    let (a, b, t, e) = (
        accuracy::exact(f),
        friction(m),
        accuracy::exact(sigma),
        accuracy::exact(eps),
    );
    // The drag.
    let (g, h) = (a * t, b * t);
    accuracy::lemma_positive_product(a, t);
    accuracy::lemma_positive_product(b, t);
    lemma_near_itself(t);
    accuracy::lemma_near_product(a, b, 1, t, t, 0);
    accuracy::lemma_near_within(g, h, 2);
    lemma_small_share(h);
    lemma_tension_floor(sigma);
    assert(1 as real <= accuracy::far() * g) by {
        let k = accuracy::far();
        accuracy::lemma_order(1 as real / 2_000_000 as real, a, t);
        accuracy::lemma_order(t / 2_000_000 as real, g, k);
        assert((1 as real / 2_000_000 as real) * t == t / 2_000_000 as real);
        assert(k * (t / 2_000_000 as real) == (k * t) / 2_000_000 as real) by (nonlinear_arith);
    }
    accuracy::lemma_times_in_range(f, sigma);
    accuracy::lemma_times_near(f, sigma);
    let drag = f.times(sigma);
    accuracy::lemma_positive(drag);
    let d = accuracy::exact(drag);
    accuracy::lemma_near_joins(d, g, 1, h, 2);
    // The drive.
    let x = drive(m);
    accuracy::lemma_quotient_back(e, h);
    accuracy::lemma_near_within(d, h, 4);
    lemma_drive_in_range(e, d, h, x);
    accuracy::lemma_over_in_range(eps, drag);
    accuracy::lemma_over_near(eps, drag);
    let y = eps.over(drag);
    accuracy::lemma_positive(y);
    let c = accuracy::exact(y);
    lemma_near_itself(e);
    accuracy::lemma_near_ratio(e, e, 0, d, h, 4);
    accuracy::lemma_near_joins(c, e / d, 1, x, 5);
    accuracy::lemma_near_within(c, x, 7);
    lemma_small_share(x);
    lemma_balance(y);
    let v = accuracy::exact(m.estimated_wall_velocity());
    accuracy::lemma_positive(m.estimated_wall_velocity());
    let (p, q) = (c * c, x * x);
    accuracy::lemma_positive_product(x, x);
    accuracy::lemma_positive_product(c, c);
    accuracy::lemma_near_product(c, x, 7, c, x, 7);
    accuracy::lemma_near_past_one(p, q, 15);
    accuracy::lemma_near_ratio(p, q, 15, 1 as real + p, 1 as real + q, 15);
    let r = q / (1 as real + q);
    accuracy::lemma_quotient_back(q, 1 as real + q);
    accuracy::lemma_near_joins(v * v, p / (1 as real + p), 12, r, 31);
    lemma_near_itself(1 as real + q);
    accuracy::lemma_near_product(v * v, r, 44, 1 as real + q, 1 as real + q, 0);
    let s = (v * v) * (1 as real + q);
    accuracy::lemma_near_widens(s, q, 45, 48);
    if x <= 256 as real {
        accuracy::lemma_near_within(s, q, 48);
        lemma_small_share(q);
        lemma_square_bounds_above(x, 256 as real);
        if v >= 1 as real {
            accuracy::lemma_order(1 as real, v, v);
            accuracy::lemma_order(1 as real, v * v, 1 as real + q);
        }
    }
}

proof fn lemma_square_bounds_above(x: real, b: real)
    requires
        0 as real <= x,
        x <= b,
    ensures
        x * x <= b * b,
{
    accuracy::lemma_order(x, b, x);
    accuracy::lemma_order(x, b, b);
}

/// The surface tension is not tiny.
proof fn lemma_tension_floor(t: Scalar)
    requires
        accuracy::positive(t),
        scalar::units(t.bits as nat) >= pow2(70),
    ensures
        accuracy::far() * accuracy::exact(t) >= 2_000_000 as real,
{
    accuracy::lemma_positive(t);
    lemma2_to64();
    rounding::lemma_pow2_sum(79, 70);
    rounding::lemma_pow2_sum(21, 79);
    let (u, p, q, f) = (scalar::units(t.bits as nat), pow2(79), pow2(70), pow2(100));
    let z = scalar::one_units();
    assert(p * u >= z) by (nonlinear_arith)
        requires
            u >= q,
            z == p * q,
            p > 0,
    ;
    let g = f * u;
    let h = 0x20_0000 * z;
    assert(g >= h) by (nonlinear_arith)
        requires
            g == f * u,
            f == 0x20_0000 * p,
            h == 0x20_0000 * z,
            p * u >= z,
    ;
    let (x, w, k) = (u as real, z as real, f as real);
    assert(g as real == k * x) by (nonlinear_arith)
        requires
            g == f * u,
            k == f as real,
            x == u as real,
    ;
    accuracy::lemma_quotient_back(x, w);
    assert(k * (x / w) >= 0x20_0000 as real) by (nonlinear_arith)
        requires
            (x / w) * w == x,
            k * x >= 0x20_0000 as real * w,
            w > 0 as real,
    ;
}

proof fn lemma_drive_in_range(e: real, d: real, h: real, x: real)
    requires
        e > 0 as real,
        d > 0 as real,
        h > 0 as real,
        x * h == e,
        x <= 1_000_000 as real,
        1_000_000 as real * x >= 1 as real,
        accuracy::within(d, h, 4int as real * (accuracy::step() * h)),
    ensures
        e <= accuracy::far() * d,
        d <= accuracy::far() * e,
        x > 0 as real,
{
    lemma_far_is_far();
    lemma_small_share(h);
    let f = accuracy::far();
    assert(d <= 2 as real * h && h <= 2 as real * d);
    accuracy::lemma_order(x, 1_000_000 as real, h);
    accuracy::lemma_order(1 as real / 1_000_000 as real, x, h);
    let k = 2_000_000 as real;
    accuracy::lemma_order(k, f, d);
    accuracy::lemma_order(k, f, e);
}

/// A wall that is driven more strongly moves faster.
pub proof fn law_stronger_drive_moves_the_wall_faster(a: Model, b: Model)
    requires
        driven(a),
        driven(b),
        101 as real * drive(a) <= 100 as real * drive(b),
        drive(b) <= 32 as real,
    ensures
        accuracy::exact(a.estimated_wall_velocity()) < accuracy::exact(
            b.estimated_wall_velocity(),
        ),
{
    law_wall_velocity_balances_the_forces(a);
    law_wall_velocity_balances_the_forces(b);
    let (x, y) = (drive(a), drive(b));
    let (v, w) = (
        accuracy::exact(a.estimated_wall_velocity()),
        accuracy::exact(b.estimated_wall_velocity()),
    );
    lemma_moves_faster(x, y, v, w);
}

proof fn lemma_moves_faster(x: real, y: real, v: real, w: real)
    requires
        x > 0 as real,
        y > 0 as real,
        v > 0 as real,
        w > 0 as real,
        101 as real * x <= 100 as real * y,
        y <= 32 as real,
        accuracy::near((v * v) * (1 as real + x * x), x * x, 48),
        accuracy::near((w * w) * (1 as real + y * y), y * y, 48),
    ensures
        v < w,
{
    let (p, q, s, t) = (x * x, y * y, v * v, w * w);
    accuracy::lemma_near_within(s * (1 as real + p), p, 48);
    accuracy::lemma_near_within(t * (1 as real + q), q, 48);
    accuracy::lemma_positive_product(x, x);
    accuracy::lemma_positive_product(y, y);
    lemma_small_share(p);
    lemma_small_share(q);
    lemma_square_bounds_above(y, 32 as real);
    lemma_square_ratio(x, y);
    if v >= w {
        lemma_square_bounds_above(w, v);
        // t (1 + q) >= q (1 - c) and t (1 + p) <= p (1 + c).
        accuracy::lemma_order(t, s, 1 as real + p);
        lemma_faster(p, q, t);
    }
}

proof fn lemma_square_ratio(x: real, y: real)
    requires
        x > 0 as real,
        101 as real * x <= 100 as real * y,
    ensures
        10201 as real * (x * x) <= 10000 as real * (y * y),
{
    let (c, d) = (101 as real * x, 100 as real * y);
    lemma_square_bounds_above(c, d);
    assert(c * c == 10201 as real * (x * x) && d * d == 10000 as real * (y * y))
        by (nonlinear_arith)
        requires
            c == 101 as real * x,
            d == 100 as real * y,
    ;
}

proof fn lemma_faster(p: real, q: real, t: real)
    requires
        p >= 0 as real,
        q > 0 as real,
        10201 as real * p <= 10000 as real * q,
        q <= 1024 as real,
        170_000 as real * (t * (1 as real + p)) <= 170_001 as real * p,
    ensures
        170_000 as real * (t * (1 as real + q)) < 169_999 as real * q,
{
    let (g, h) = (1 as real + p, 1 as real + q);
    let (a, b) = (t * g, t * h);
    accuracy::lemma_order(170_000 as real * a, 170_001 as real * p, h);
    if 169_999 as real * q <= 170_000 as real * b {
        accuracy::lemma_order(169_999 as real * q, 170_000 as real * b, g);
    }
    assert(a * h == b * g) by (nonlinear_arith)
        requires
            a == t * g,
            b == t * h,
    ;
    assert((170_000 as real * a) * h == 170_000 as real * (a * h) && (170_000 as real * b) * g
        == 170_000 as real * (b * g)) by (nonlinear_arith);
    let c = p * q;
    assert((170_001 as real * p) * h == 170_001 as real * (p + c) && (169_999 as real * q) * g
        == 169_999 as real * (q + c)) by (nonlinear_arith)
        requires
            c == p * q,
            g == 1 as real + p,
            h == 1 as real + q,
    ;
    // 169999 q - 170001 p <= 2 p q
    accuracy::lemma_order(q, 1024 as real, p);
}

} // verus!
