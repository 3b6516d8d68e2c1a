//! The derived quantities of a model in any unit of the field.

use vstd::prelude::*;

use crate::accuracy;
use crate::physics;
use crate::physics::Model;
use crate::potential;
use crate::scalar::{Scalar, HALF, ONE, ONE_AND_A_HALF, SIX, TWELVE, TWO};

verus! {

/// Whether a positive number lies between `1 / k` and `k`.
pub open spec fn spans(x: real, k: real) -> bool {
    &&& x > 0 as real
    &&& x <= k
    &&& k * x >= 1 as real
}

/// Whether the parameters of a model lie between a thirtieth and thirty, in whatever unit of
/// the field.
pub open spec fn ordinary(m: Model) -> bool {
    &&& accuracy::positive(m.lambda) && spans(accuracy::exact(m.lambda), 30 as real)
    &&& accuracy::positive(m.eps_ratio) && spans(accuracy::exact(m.eps_ratio), 30 as real)
    &&& accuracy::positive(m.phi_b) && spans(accuracy::exact(m.phi_b), 30 as real)
    &&& accuracy::positive(m.alpha) && spans(accuracy::exact(m.alpha), 30 as real)
}

proof fn lemma_span_product(x: real, j: real, y: real, k: real)
    requires
        spans(x, j),
        spans(y, k),
        j > 0 as real,
        k > 0 as real,
    ensures
        spans(x * y, j * k),
{
    accuracy::lemma_positive_product(x, y);
    accuracy::lemma_order(x, j, y);
    accuracy::lemma_order(y, k, j);
    let (p, q) = (j * x, k * y);
    accuracy::lemma_order(1 as real, p, q);
    assert(p * q == (j * k) * (x * y)) by (nonlinear_arith)
        requires
            p == j * x,
            q == k * y,
    ;
}

proof fn lemma_span_quotient(x: real, j: real, y: real, k: real)
    requires
        spans(x, j),
        spans(y, k),
        j > 0 as real,
        k > 0 as real,
    ensures
        spans(x / y, j * k),
{
    accuracy::lemma_quotient_back(x, y);
    let z = x / y;
    // z y = x
    assert(z <= j * k) by {
        accuracy::lemma_order(1 as real, k * y, z);
        assert((k * y) * z == k * x) by (nonlinear_arith)
            requires
                z * y == x,
        ;
        accuracy::lemma_order(x, j, k);
        assert(j * k == k * j) by (nonlinear_arith);
    }
    assert((j * k) * z >= 1 as real) by {
        accuracy::lemma_order(y, k, z);
        accuracy::lemma_order(x, k * z, j);
        assert(j * (k * z) == (j * k) * z && z * k == k * z) by (nonlinear_arith);
    }
}

proof fn lemma_span_moderate(x: real, k: real)
    requires
        spans(x, k),
        k <= accuracy::wide(),
    ensures
        accuracy::moderate(x),
{
    accuracy::lemma_order(k, accuracy::wide(), x);
}

/// The constants of a model.
proof fn lemma_numbers()
    ensures
        accuracy::exact(Scalar::of_bits(HALF)) == 1 as real / 2 as real,
        accuracy::exact(Scalar::of_bits(ONE)) == 1 as real,
        accuracy::exact(Scalar::of_bits(ONE_AND_A_HALF)) == 3 as real / 2 as real,
        accuracy::exact(Scalar::of_bits(TWO)) == 2 as real,
        accuracy::exact(Scalar::of_bits(SIX)) == 6 as real,
        accuracy::exact(Scalar::of_bits(TWELVE)) == 12 as real,
{
    accuracy::lemma_constants();
    accuracy::lemma_constant(HALF, 1, 2);
    accuracy::lemma_constant(ONE, 1, 1);
    accuracy::lemma_constant(ONE_AND_A_HALF, 3, 2);
    accuracy::lemma_constant(TWO, 2, 1);
    accuracy::lemma_constant(SIX, 6, 1);
    accuracy::lemma_constant(TWELVE, 12, 1);
}

/// The powers of a number.
proof fn lemma_powers(x: Scalar)
    requires
        accuracy::positive(x),
        spans(accuracy::exact(x), 30 as real),
    ensures
        ({
            let p = accuracy::exact(x);
            let (a, b, c) = (p * p, p * (p * p), (p * p) * (p * p));
            &&& accuracy::normal(x.squared()) && accuracy::near(accuracy::exact(x.squared()), a, 3)
            &&& accuracy::normal(x.cubed()) && accuracy::near(accuracy::exact(x.cubed()), b, 6)
            &&& accuracy::normal(x.fourth()) && accuracy::near(accuracy::exact(x.fourth()), c, 9)
            &&& spans(a, 900 as real)
            &&& spans(b, 27_000 as real)
            &&& spans(c, 810_000 as real)
        }),
{
    accuracy::lemma_positive(x);
    let p = accuracy::exact(x);
    let k = 30 as real;
    accuracy::lemma_near_itself(p);
    lemma_span_product(p, k, p, k);
    assert(k * k == 900 as real);
    lemma_span_moderate(p * p, 900 as real);
    accuracy::lemma_times_of(x, p, 0, x, p, 0);
    lemma_span_product(p, k, p * p, 900 as real);
    assert(k * 900 as real == 27_000 as real);
    lemma_span_moderate(p * (p * p), 27_000 as real);
    accuracy::lemma_times_of(x, p, 0, x.times(x), p * p, 3);
    lemma_span_product(p * p, 900 as real, p * p, 900 as real);
    assert(900 as real * 900 as real == 810_000 as real);
    lemma_span_moderate((p * p) * (p * p), 810_000 as real);
    accuracy::lemma_times_of(x.times(x), p * p, 3, x.times(x), p * p, 3);
}

/// The bag constant is the splitting times the coupling times the fourth power of the true
/// vacuum, over twelve; the reference energy times the strength is the bag constant.
pub proof fn law_bag_constant_in_any_unit(m: Model)
    requires
        ordinary(m),
    ensures
        ({
            let (l, r, p) = (
                accuracy::exact(m.lambda),
                accuracy::exact(m.eps_ratio),
                accuracy::exact(m.phi_b),
            );
            let eps = accuracy::exact(m.eps());
            &&& accuracy::normal(m.eps())
            &&& accuracy::near(eps, ((r * l) * ((p * p) * (p * p))) / 12 as real, 18)
            &&& accuracy::near(accuracy::exact(m.e_ref()) * accuracy::exact(m.alpha), eps, 4)
        }),
{
    lemma_bag(m);
    let (eps, a) = (accuracy::exact(m.eps()), accuracy::exact(m.alpha));
    accuracy::lemma_positive(m.eps());
    accuracy::lemma_positive(m.alpha);
    accuracy::lemma_near_itself(eps);
    accuracy::lemma_near_itself(a);
    let big = 20_000_000_000 as real;
    lemma_span_quotient(eps, big, a, 30 as real);
    lemma_span_moderate(eps / a, big * 30 as real);
    accuracy::lemma_over_of(m.eps(), eps, 0, m.alpha, a, 0);
    accuracy::lemma_quotient_back(eps, a);
    accuracy::lemma_near_product(accuracy::exact(m.e_ref()), eps / a, 3, a, a, 0);
}

/// The bag constant, and its size.
proof fn lemma_bag(m: Model)
    requires
        ordinary(m),
    ensures
        ({
            let (l, r, p) = (
                accuracy::exact(m.lambda),
                accuracy::exact(m.eps_ratio),
                accuracy::exact(m.phi_b),
            );
            let eps = accuracy::exact(m.eps());
            &&& accuracy::normal(m.eps())
            &&& accuracy::near(eps, ((r * l) * ((p * p) * (p * p))) / 12 as real, 18)
            &&& spans(eps, 20_000_000_000 as real)
        }),
{
    lemma_numbers();
    lemma_powers(m.phi_b);
    let (l, r, p) = (
        accuracy::exact(m.lambda),
        accuracy::exact(m.eps_ratio),
        accuracy::exact(m.phi_b),
    );
    let c = (p * p) * (p * p);
    let (k, t) = (900 as real, 810_000 as real);
    accuracy::lemma_near_itself(r);
    accuracy::lemma_near_itself(l);
    accuracy::lemma_near_itself(12 as real);
    lemma_span_product(r, 30 as real, l, 30 as real);
    assert(30 as real * 30 as real == k);
    lemma_span_moderate(r * l, k);
    accuracy::lemma_times_of(m.eps_ratio, r, 0, m.lambda, l, 0);
    let y = m.eps_ratio.times(m.lambda);
    lemma_span_product(r * l, k, c, t);
    lemma_span_moderate((r * l) * c, k * t);
    accuracy::lemma_times_of(y, r * l, 3, m.phi_b.fourth(), c, 9);
    let v = (r * l) * c;
    lemma_span_quotient(v, k * t, 12 as real, 12 as real);
    lemma_span_moderate(v / 12 as real, (k * t) * 12 as real);
    accuracy::lemma_over_of(
        y.times(m.phi_b.fourth()),
        v,
        15,
        Scalar::of_bits(TWELVE),
        12 as real,
        0,
    );
    let eps = accuracy::exact(m.eps());
    lemma_near_spans(eps, v / 12 as real, 18, (k * t) * 12 as real);
    let big = 20_000_000_000 as real;
    accuracy::lemma_order(2 as real * ((k * t) * 12 as real), big, eps);
}

/// What is near to something spans a little more.
proof fn lemma_near_spans(x: real, t: real, k: int, c: real)
    requires
        accuracy::near(x, t, k),
        0 <= k <= 100,
        spans(t, c),
        c > 0 as real,
    ensures
        spans(x, 2 as real * c),
{
    accuracy::lemma_near_within(x, t, k);
    accuracy::lemma_step();
    let (e, j) = (accuracy::step(), k as real);
    let q = e * t;
    assert(0x80_0000 as real * q == t) by (nonlinear_arith)
        requires
            q == e * t,
            0x80_0000 as real * e == 1 as real,
    ;
    accuracy::lemma_order(j, 100 as real, q);
    accuracy::lemma_order(t, 2 as real * x, c);
    assert(c * (2 as real * x) == (2 as real * c) * x) by (nonlinear_arith);
}

/// The square root of an ordinary number.
proof fn lemma_root(a: Scalar)
    requires
        accuracy::positive(a),
        spans(accuracy::exact(a), 100 as real),
    ensures
        accuracy::normal(a.sqrt()),
        spans(accuracy::exact(a.sqrt()), 30 as real),
        accuracy::near(
            accuracy::exact(a.sqrt()) * accuracy::exact(a.sqrt()),
            accuracy::exact(a),
            3,
        ),
{
    accuracy::lemma_sqrt_near(a);
    accuracy::lemma_positive(a.sqrt());
    let s = accuracy::exact(a.sqrt());
    lemma_near_spans(s * s, accuracy::exact(a), 3, 100 as real);
    if s > 30 as real {
        accuracy::lemma_order(30 as real, s, s);
    }
    if 30 as real * s < 1 as real {
        let t = 1 as real / 30 as real;
        accuracy::lemma_order(s, t, s);
        accuracy::lemma_order(s, t, t);
    }
}

/// The surface tension squared, times seventy-two, is the coupling times the sixth power of the
/// true vacuum; the critical radius times the bag constant is twice the surface tension.
pub proof fn law_surface_tension_in_any_unit(m: Model)
    requires
        ordinary(m),
    ensures
        ({
            let (l, p) = (accuracy::exact(m.lambda), accuracy::exact(m.phi_b));
            let t = accuracy::exact(m.surface_tension());
            let b = p * (p * p);
            &&& accuracy::normal(m.surface_tension())
            &&& accuracy::near(72 as real * (t * t), l * (b * b), 40)
            &&& accuracy::near(
                accuracy::exact(m.critical_radius()) * accuracy::exact(m.eps()),
                2 as real * t,
                7,
            )
        }),
{
    lemma_numbers();
    lemma_powers(m.phi_b);
    lemma_bag(m);
    let (two, six) = (Scalar::of_bits(TWO), Scalar::of_bits(SIX));
    accuracy::lemma_positive(m.lambda);
    accuracy::lemma_positive(m.phi_b);
    let (l, p) = (accuracy::exact(m.lambda), accuracy::exact(m.phi_b));
    let b = p * (p * p);
    accuracy::lemma_near_itself(l);
    accuracy::lemma_near_itself(2 as real);
    accuracy::lemma_near_itself(6 as real);
    // Half the coupling and its root.
    let h = m.lambda.over(two);
    assert(spans(l / 2 as real, 60 as real));
    lemma_span_moderate(l / 2 as real, 60 as real);
    accuracy::lemma_over_of(m.lambda, l, 0, two, 2 as real, 0);
    let x = accuracy::exact(h);
    accuracy::lemma_positive(h);
    lemma_half_spans(x, l);
    lemma_root(h);
    let s = h.sqrt();
    let y = accuracy::exact(s);
    accuracy::lemma_positive(s);
    accuracy::lemma_near_joins(y * y, x, 3, l / 2 as real, 3);
    // Times the cube, over six.
    let g = 27_000 as real;
    accuracy::lemma_near_itself(y);
    lemma_span_product(y, 30 as real, b, g);
    lemma_span_moderate(y * b, 30 as real * g);
    accuracy::lemma_times_of(s, y, 0, m.phi_b.cubed(), b, 6);
    let v = y * b;
    lemma_span_quotient(v, 30 as real * g, 6 as real, 6 as real);
    lemma_span_moderate(v / 6 as real, (30 as real * g) * 6 as real);
    accuracy::lemma_over_of(s.times(m.phi_b.cubed()), v, 9, six, 6 as real, 0);
    let t = accuracy::exact(m.surface_tension());
    accuracy::lemma_positive(m.surface_tension());
    let c = v / 6 as real;
    accuracy::lemma_near_product(t, c, 12, t, c, 12);
    accuracy::lemma_near_itself(72 as real);
    accuracy::lemma_positive_product(c, c);
    accuracy::lemma_near_product(72 as real, 72 as real, 0, t * t, c * c, 25);
    // 72 c c is 2 y y b b, which is near l b b.
    let q = b * b;
    accuracy::lemma_positive_product(b, b);
    accuracy::lemma_near_product(2 as real, 2 as real, 0, y * y, l / 2 as real, 7);
    assert(2 as real * (l / 2 as real) == l);
    accuracy::lemma_near_itself(q);
    accuracy::lemma_near_product(2 as real * (y * y), l, 8, q, q, 0);
    assert(72 as real * (c * c) == (2 as real * (y * y)) * q) by (nonlinear_arith)
        requires
            c == v / 6 as real,
            v == y * b,
            q == b * b,
    ;
    accuracy::lemma_positive_product(l, q);
    accuracy::lemma_near_joins(72 as real * (t * t), (2 as real * (y * y)) * q, 26, l * q, 9);
    accuracy::lemma_near_widens(72 as real * (t * t), l * q, 36, 40);
    // The critical radius.
    let eps = accuracy::exact(m.eps());
    accuracy::lemma_positive(m.eps());
    accuracy::lemma_near_itself(t);
    accuracy::lemma_near_itself(eps);
    let w = (30 as real * g) * 6 as real;
    lemma_near_spans(t, c, 12, w);
    lemma_span_product(2 as real, 2 as real, t, 2 as real * w);
    lemma_span_moderate(2 as real * t, 2 as real * (2 as real * w));
    accuracy::lemma_times_of(two, 2 as real, 0, m.surface_tension(), t, 0);
    lemma_radius_span(eps, t);
    accuracy::lemma_over_of(
        two.times(m.surface_tension()),
        2 as real * t,
        3,
        m.eps(),
        eps,
        0,
    );
    let rc = accuracy::exact(m.critical_radius());
    accuracy::lemma_quotient_back(2 as real * t, eps);
    accuracy::lemma_near_product(rc, (2 as real * t) / eps, 6, eps, eps, 0);
}

/// The critical radius is of moderate size.
proof fn lemma_radius_span(eps: real, t: real)
    requires
        spans(eps, 20_000_000_000 as real),
        spans(2 as real * t, 2 as real * (2 as real * ((30 as real * 27_000 as real) * 6 as real))),
    ensures
        accuracy::moderate((2 as real * t) / eps),
{
    let j = 19_440_000 as real;
    let k = 20_000_000_000 as real;
    assert(2 as real * (2 as real * ((30 as real * 27_000 as real) * 6 as real)) == j);
    lemma_span_quotient(2 as real * t, j, eps, k);
    lemma_span_moderate((2 as real * t) / eps, j * k);
}

proof fn lemma_half_spans(x: real, l: real)
    requires
        accuracy::near(x, l / 2 as real, 3),
        spans(l, 30 as real),
    ensures
        spans(x, 100 as real),
{
    accuracy::lemma_near_within(x, l / 2 as real, 3);
    accuracy::lemma_step();
    let (e, h) = (accuracy::step(), l / 2 as real);
    assert(0x80_0000 as real * (e * h) == h) by (nonlinear_arith)
        requires
            0x80_0000 as real * e == 1 as real,
    ;
}

/// The wall thickness squared, times the coupling and the square of the true vacuum, is eight.
pub proof fn law_wall_width_in_any_unit(m: Model)
    requires
        ordinary(m),
    ensures
        ({
            let (l, p) = (accuracy::exact(m.lambda), accuracy::exact(m.phi_b));
            let w = accuracy::exact(m.wall_width());
            &&& accuracy::normal(m.wall_width())
            &&& accuracy::near((w * w) * (l * (p * p)), 8 as real, 30)
        }),
{
    accuracy::lemma_positive(m.lambda);
    accuracy::lemma_positive(m.phi_b);
    let (l, p) = (accuracy::exact(m.lambda), accuracy::exact(m.phi_b));
    lemma_root(m.lambda);
    let s = m.lambda.sqrt();
    accuracy::lemma_positive(s);
    let y = accuracy::exact(s);
    accuracy::lemma_near_itself(p);
    accuracy::lemma_near_itself(y);
    lemma_span_product(p, 30 as real, y, 30 as real);
    let d = p * y;
    lemma_span_moderate(d, 30 as real * 30 as real);
    accuracy::lemma_times_of(m.phi_b, p, 0, s, y, 0);
    let c = Scalar::of_bits(TWO).times(Scalar::of_bits(physics::SQRT_2));
    potential::lemma_numerator();
    accuracy::lemma_positive(c);
    let x = accuracy::exact(c);
    lemma_numerator_spans(x);
    accuracy::lemma_near_itself(x);
    lemma_span_quotient(x, 10 as real, d, 30 as real * 30 as real);
    lemma_span_moderate(x / d, 10 as real * (30 as real * 30 as real));
    accuracy::lemma_over_of(c, x, 0, m.phi_b.times(s), d, 3);
    let w = accuracy::exact(m.wall_width());
    let t = x / d;
    accuracy::lemma_quotient_back(x, d);
    accuracy::lemma_near_product(w, t, 6, w, t, 6);
    // t t times l p p is x x times l over y y.
    let (a, q) = (t * t, l * (p * p));
    accuracy::lemma_positive_product(t, t);
    accuracy::lemma_positive_product(p, p);
    accuracy::lemma_positive_product(l, p * p);
    accuracy::lemma_near_itself(q);
    accuracy::lemma_near_product(w * w, a, 13, q, q, 0);
    let (z, g) = (y * y, x * x);
    accuracy::lemma_positive_product(y, y);
    accuracy::lemma_positive_product(x, x);
    accuracy::lemma_near_turns(z, l, 3);
    accuracy::lemma_near_itself(z);
    accuracy::lemma_near_scales(l, z, 4, z);
    accuracy::lemma_quotient_back(z, z);
    accuracy::lemma_quotient_back(l, z);
    let r = l / z;
    assert(z / z == 1 as real) by (nonlinear_arith)
        requires
            z > 0 as real,
    ;
    accuracy::lemma_near_product(g, 8 as real, 5, r, 1 as real, 4);
    assert(8 as real * 1 as real == 8 as real);
    assert(a * q == g * r) by {
        assert((a * q) * z == (g * r) * z) by (nonlinear_arith)
            requires
                a == t * t,
                q == l * (p * p),
                t * d == x,
                d == p * y,
                z == y * y,
                g == x * x,
                r * z == l,
        ;
        assert(a * q == g * r) by (nonlinear_arith)
            requires
                (a * q) * z == (g * r) * z,
                z > 0 as real,
        ;
    }
    accuracy::lemma_near_joins((w * w) * q, a * q, 14, 8 as real, 10);
    accuracy::lemma_near_widens((w * w) * q, 8 as real, 25, 30);
}

proof fn lemma_numerator_spans(x: real)
    requires
        x > 0 as real,
        accuracy::near(x * x, 8 as real, 5),
    ensures
        spans(x, 10 as real),
{
    lemma_near_spans(x * x, 8 as real, 5, 8 as real);
    if x > 10 as real {
        accuracy::lemma_order(10 as real, x, x);
    }
    if 10 as real * x < 1 as real {
        let t = 1 as real / 10 as real;
        accuracy::lemma_order(x, t, x);
        accuracy::lemma_order(x, t, t);
    }
}

/// What is near, in plain terms.
proof fn lemma_close(x: real, t: real, k: int, j: int)
    requires
        accuracy::near(x, t, k),
        0 <= k <= j,
        t >= 0 as real,
    ensures
        accuracy::within(x, t, j as real * (accuracy::step() * t)),
{
    accuracy::lemma_near_widens(x, t, k, j);
    accuracy::lemma_near_within(x, t, j);
}

/// The curvature and the cubic coefficient against their terms: what the coupling gives, less
/// what the bag constant takes, so that the true vacuum is stationary and as deep as asked.
pub proof fn law_coefficients_in_any_unit(m: Model)
    requires
        ordinary(m),
    ensures
        ({
            let (l, p) = (accuracy::exact(m.lambda), accuracy::exact(m.phi_b));
            let eps = accuracy::exact(m.eps());
            let (a, b) = ((l / 2 as real) * (p * p), (6 as real * eps) / (p * p));
            let (c, d) = ((3 as real * l / 2 as real) * p, (6 as real * eps) / (p * (p * p)));
            &&& accuracy::within(
                accuracy::exact(m.m2()),
                a - b,
                20 as real * (accuracy::step() * (a + b)),
            )
            &&& accuracy::within(
                accuracy::exact(m.delta()),
                c - d,
                20 as real * (accuracy::step() * (c + d)),
            )
        }),
{
    lemma_curvature(m);
    lemma_cubic(m);
}

/// Six bag constants.
proof fn lemma_six_bags(m: Model)
    requires
        ordinary(m),
    ensures
        ({
            let g = Scalar::of_bits(SIX).times(m.eps());
            let v = 6 as real * accuracy::exact(m.eps());
            &&& accuracy::normal(g)
            &&& accuracy::near(accuracy::exact(g), v, 3)
            &&& spans(v, 120_000_000_000 as real)
        }),
{
    lemma_numbers();
    lemma_bag(m);
    accuracy::lemma_positive(m.eps());
    let eps = accuracy::exact(m.eps());
    accuracy::lemma_near_itself(6 as real);
    accuracy::lemma_near_itself(eps);
    let big = 20_000_000_000 as real;
    lemma_span_product(6 as real, 6 as real, eps, big);
    assert(6 as real * big == 120_000_000_000 as real);
    lemma_span_moderate(6 as real * eps, 6 as real * big);
    accuracy::lemma_times_of(Scalar::of_bits(SIX), 6 as real, 0, m.eps(), eps, 0);
}

/// The curvature.
proof fn lemma_curvature(m: Model)
    requires
        ordinary(m),
    ensures
        ({
            let (l, p) = (accuracy::exact(m.lambda), accuracy::exact(m.phi_b));
            let eps = accuracy::exact(m.eps());
            let (a, b) = ((l / 2 as real) * (p * p), (6 as real * eps) / (p * p));
            accuracy::within(
                accuracy::exact(m.m2()),
                a - b,
                20 as real * (accuracy::step() * (a + b)),
            )
        }),
{
    lemma_numbers();
    lemma_powers(m.phi_b);
    lemma_six_bags(m);
    accuracy::lemma_positive(m.lambda);
    accuracy::lemma_positive(m.phi_b);
    let (l, p) = (accuracy::exact(m.lambda), accuracy::exact(m.phi_b));
    let k = Scalar::of_bits(HALF);
    let h = 1 as real / 2 as real;
    accuracy::lemma_near_itself(h);
    accuracy::lemma_near_itself(l);
    accuracy::lemma_near_itself(p);
    lemma_span_product(h, 2 as real, l, 30 as real);
    lemma_span_moderate(h * l, 2 as real * 30 as real);
    accuracy::lemma_times_of(k, h, 0, m.lambda, l, 0);
    lemma_span_product(h * l, 2 as real * 30 as real, (p * p), 900 as real);
    lemma_span_moderate((h * l) * (p * p), (2 as real * 30 as real) * 900 as real);
    accuracy::lemma_times_of(k.times(m.lambda), h * l, 3, m.phi_b.squared(), (p * p), 3);
    let (g, v) = (Scalar::of_bits(SIX).times(m.eps()), 6 as real * accuracy::exact(m.eps()));
    let big = 120_000_000_000 as real;
    lemma_span_quotient(v, big, (p * p), 900 as real);
    lemma_span_moderate(v / (p * p), big * 900 as real);
    accuracy::lemma_over_of(g, v, 3, m.phi_b.squared(), (p * p), 3);
    assert(h * l == l / 2 as real);
    lemma_subtracted(
        k.times(m.lambda).times(m.phi_b.squared()),
        (h * l) * (p * p),
        g.over(m.phi_b.squared()),
        v / (p * p),
    );
}

/// The cubic coefficient.
proof fn lemma_cubic(m: Model)
    requires
        ordinary(m),
    ensures
        ({
            let (l, p) = (accuracy::exact(m.lambda), accuracy::exact(m.phi_b));
            let eps = accuracy::exact(m.eps());
            let (a, b) = ((3 as real * l / 2 as real) * p, (6 as real * eps) / (p * (p * p)));
            accuracy::within(
                accuracy::exact(m.delta()),
                a - b,
                20 as real * (accuracy::step() * (a + b)),
            )
        }),
{
    lemma_numbers();
    lemma_powers(m.phi_b);
    lemma_six_bags(m);
    accuracy::lemma_positive(m.lambda);
    accuracy::lemma_positive(m.phi_b);
    let (l, p) = (accuracy::exact(m.lambda), accuracy::exact(m.phi_b));
    let k = Scalar::of_bits(ONE_AND_A_HALF);
    let h = 3 as real / 2 as real;
    accuracy::lemma_near_itself(h);
    accuracy::lemma_near_itself(l);
    accuracy::lemma_near_itself(p);
    lemma_span_product(h, 2 as real, l, 30 as real);
    lemma_span_moderate(h * l, 2 as real * 30 as real);
    accuracy::lemma_times_of(k, h, 0, m.lambda, l, 0);
    lemma_span_product(h * l, 2 as real * 30 as real, p, 30 as real);
    lemma_span_moderate((h * l) * p, (2 as real * 30 as real) * 30 as real);
    accuracy::lemma_times_of(k.times(m.lambda), h * l, 3, m.phi_b, p, 0);
    let (g, v) = (Scalar::of_bits(SIX).times(m.eps()), 6 as real * accuracy::exact(m.eps()));
    let big = 120_000_000_000 as real;
    lemma_span_quotient(v, big, (p * (p * p)), 27_000 as real);
    lemma_span_moderate(v / (p * (p * p)), big * 27_000 as real);
    accuracy::lemma_over_of(g, v, 3, m.phi_b.cubed(), (p * (p * p)), 6);
    assert(h * l == 3 as real * l / 2 as real);
    lemma_subtracted(
        k.times(m.lambda).times(m.phi_b),
        (h * l) * p,
        g.over(m.phi_b.cubed()),
        v / (p * (p * p)),
    );
}

/// A difference of what is near to two terms.
proof fn lemma_subtracted(x: Scalar, a: real, y: Scalar, b: real)
    requires
        accuracy::positive(x),
        accuracy::positive(y),
        a > 0 as real,
        b > 0 as real,
        accuracy::near(accuracy::exact(x), a, 9) || accuracy::near(accuracy::exact(x), a, 6),
        accuracy::near(accuracy::exact(y), b, 9) || accuracy::near(accuracy::exact(y), b, 12),
    ensures
        accuracy::within(
            accuracy::exact(x.minus(y)),
            a - b,
            20 as real * (accuracy::step() * (a + b)),
        ),
{
    accuracy::lemma_step();
    accuracy::lemma_positive(x);
    accuracy::lemma_positive(y);
    accuracy::lemma_minus_within(x, y);
    let (p, q, e) = (accuracy::exact(x), accuracy::exact(y), accuracy::step());
    lemma_close(p, a, if accuracy::near(p, a, 9) { 9 } else { 6 }, 12);
    lemma_close(q, b, if accuracy::near(q, b, 9) { 9 } else { 12 }, 12);
    assert(0x80_0000 as real * (e * a) == a && 0x80_0000 as real * (e * b) == b && e * (a + b) == e
        * a + e * b) by (nonlinear_arith)
        requires
            0x80_0000 as real * e == 1 as real,
    ;
    let w = 2 as real * (a + b);
    if p >= q {
        accuracy::lemma_order(p - q, w, e);
    } else {
        accuracy::lemma_order(q - p, w, e);
    }
    assert(e * w == 2 as real * (e * (a + b))) by (nonlinear_arith)
        requires
            w == 2 as real * (a + b),
    ;
}

} // verus!
