//! How far computed numbers of either sign lie from exact ones.

use vstd::arithmetic::power2::*;
use vstd::prelude::*;

use crate::accuracy;
use crate::rounding;
use crate::rounding::INFINITE;
use crate::scalar;
use crate::scalar::Scalar;
use crate::torus;

verus! {

/// The size of a product is the product of the sizes.
pub proof fn lemma_size_product(x: real, y: real)
    ensures
        torus::size(x * y) == torus::size(x) * torus::size(y),
{
    assert(torus::size(x * y) == torus::size(x) * torus::size(y)) by {
        if x >= 0 as real && y >= 0 as real {
            accuracy::lemma_order(0 as real, y, x);
        } else if x >= 0 as real {
            accuracy::lemma_order(0 as real, -y, x);
            assert(x * (-y) == -(x * y)) by (nonlinear_arith);
            assert(x * y <= 0 as real);
            lemma_zero_size(x * y);
        } else if y >= 0 as real {
            accuracy::lemma_order(0 as real, -x, y);
            assert((-x) * y == -(x * y)) by (nonlinear_arith);
            lemma_zero_size(x * y);
        } else {
            accuracy::lemma_order(0 as real, -x, -y);
            assert((-x) * (-y) == x * y) by (nonlinear_arith);
        }
    }
}

/// The size of what is not positive.
pub proof fn lemma_zero_size(x: real)
    requires
        x <= 0 as real,
    ensures
        torus::size(x) == -x,
{
}

/// The exact value of the opposite of a number.
pub proof fn lemma_opposite(negative: bool, m: nat)
    requires
        m < INFINITE,
    ensures
        accuracy::exact(scalar::signed(false, m)) >= 0 as real,
        accuracy::exact(scalar::signed(true, m)) == -accuracy::exact(scalar::signed(false, m)),
        torus::size(accuracy::exact(scalar::signed(negative, m))) == accuracy::exact(
            scalar::signed(false, m),
        ),
{
    scalar::lemma_signed(false, m);
    scalar::lemma_signed(true, m);
    lemma_pow2_pos(149);
    let (v, z) = (scalar::units(m) as real, scalar::one_units() as real);
    assert(v / z >= 0 as real && (-v) / z == -(v / z)) by (nonlinear_arith)
        requires
            v >= 0 as real,
            z > 0 as real,
    ;
}

/// A finite number and its size.
pub proof fn lemma_finite(a: Scalar)
    requires
        a.is_finite(),
    ensures
        accuracy::counts(a.abs()),
        a.abs().bits == a.magnitude(),
        torus::size(accuracy::exact(a)) == accuracy::exact(a.abs()),
        accuracy::exact(a) == if a.negative() {
            -accuracy::exact(a.abs())
        } else {
            accuracy::exact(a.abs())
        },
        accuracy::exact(a.negated()) == -accuracy::exact(a),
        a.negated().is_finite(),
{
    scalar::lemma_signed(false, a.magnitude());
    scalar::lemma_signed(true, a.magnitude());
    lemma_opposite(a.negative(), a.magnitude());
    assert(a == scalar::signed(a.negative(), a.magnitude()));
}

/// A finite product of finite numbers, up to rounding.
pub proof fn lemma_product(a: Scalar, b: Scalar)
    requires
        a.times(b).is_finite(),
    ensures
        a.is_finite(),
        b.is_finite(),
        ({
            let t = accuracy::exact(a) * accuracy::exact(b);
            accuracy::within(
                accuracy::exact(a.times(b)),
                t,
                accuracy::step() * torus::size(t) + accuracy::unit(),
            )
        }),
{
    accuracy::lemma_finite_product(a, b);
    lemma_finite(a);
    lemma_finite(b);
    let (p, q) = (a.abs(), b.abs());
    let m = rounding::round_magnitude(
        scalar::units(a.magnitude()) * scalar::units(b.magnitude()),
        scalar::one_units(),
    );
    let negative = a.negative() != b.negative();
    scalar::lemma_signed(false, m);
    scalar::lemma_signed(true, m);
    accuracy::lemma_counts(p);
    accuracy::lemma_counts(q);
    assert(p.times(q) == scalar::signed(false, m) && a.times(b) == scalar::signed(negative, m)) by {
        reveal(Scalar::times_spec);
    }
    accuracy::lemma_times_within(p, q);
    lemma_opposite(negative, m);
    let (x, y) = (accuracy::exact(p), accuracy::exact(q));
    lemma_size_product(accuracy::exact(a), accuracy::exact(b));
    assert((-x) * y == -(x * y) && x * (-y) == -(x * y) && (-x) * (-y) == x * y)
        by (nonlinear_arith);
}

/// A finite quotient by a positive number, up to rounding.
pub proof fn lemma_quotient(a: Scalar, b: Scalar)
    requires
        accuracy::positive(b),
        a.over(b).is_finite(),
    ensures
        a.is_finite(),
        ({
            let t = accuracy::exact(a) / accuracy::exact(b);
            accuracy::within(
                accuracy::exact(a.over(b)),
                t,
                accuracy::step() * torus::size(t) + accuracy::unit(),
            )
        }),
{
    accuracy::lemma_finite_quotient(a, b);
    accuracy::lemma_positive(b);
    lemma_finite(a);
    let p = a.abs();
    let m = rounding::round_magnitude(
        scalar::units(a.magnitude()) * scalar::one_units(),
        scalar::units(b.bits as nat),
    );
    scalar::lemma_signed(false, m);
    scalar::lemma_signed(true, m);
    accuracy::lemma_counts(p);
    assert(p.over(b) == scalar::signed(false, m) && a.over(b) == scalar::signed(a.negative(), m))
        by {
        reveal(Scalar::over_spec);
    }
    accuracy::lemma_over_within(p, b);
    lemma_opposite(a.negative(), m);
    let (x, y) = (accuracy::exact(p), accuracy::exact(b));
    assert((-x) / y == -(x / y) && x / y >= 0 as real) by (nonlinear_arith)
        requires
            y > 0 as real,
            x >= 0 as real,
    ;
    lemma_zero_size(-(x / y));
}

/// A finite sum of finite numbers, up to rounding.
pub proof fn lemma_sum(a: Scalar, b: Scalar)
    requires
        a.is_finite(),
        b.is_finite(),
        a.plus(b).is_finite(),
    ensures
        ({
            let t = accuracy::exact(a) + accuracy::exact(b);
            accuracy::within(accuracy::exact(a.plus(b)), t, accuracy::step() * torus::size(t))
        }),
{
    reveal(Scalar::plus_spec);
    lemma_pow2_pos(149);
    accuracy::lemma_step();
    let (v, z) = (a.value() + b.value(), scalar::one_units() as real);
    let (x, y, w) = (a.value() as real, b.value() as real, v as real);
    assert(x / z + y / z == w / z && (-w) / z == -(w / z)) by (nonlinear_arith)
        requires
            w == x + y,
            z > 0 as real,
    ;
    let t = w / z;
    scalar::lemma_signed(true, 0);
    scalar::lemma_signed(false, 0);
    scalar::lemma_units_zero(0);
    if v == 0 {
        assert(0 as real / z == 0 as real && -(0 as real) / z == 0 as real) by (nonlinear_arith)
            requires
                z > 0 as real,
        ;
        assert(t == 0 as real);
        let e = accuracy::step();
        assert(e * t == 0 as real) by (nonlinear_arith)
            requires
                t == 0 as real,
        ;
    } else {
        let n = (if v > 0 {
            v
        } else {
            -v
        }) as nat;
        let m = rounding::round_magnitude(n, 1);
        scalar::lemma_signed(true, m);
        scalar::lemma_signed(false, m);
        accuracy::lemma_rounded_units(n);
        lemma_opposite(v < 0, m);
        accuracy::lemma_quotient_back(n as real, z);
    }
}

/// A finite difference of finite numbers, up to rounding.
pub proof fn lemma_difference(a: Scalar, b: Scalar)
    requires
        a.is_finite(),
        b.is_finite(),
        a.minus(b).is_finite(),
    ensures
        ({
            let t = accuracy::exact(a) - accuracy::exact(b);
            accuracy::within(accuracy::exact(a.minus(b)), t, accuracy::step() * torus::size(t))
        }),
{
    lemma_finite(b);
    lemma_sum(a, b.negated());
}

/// A product of numbers that is not too large is finite.
pub proof fn lemma_product_finite(a: Scalar, b: Scalar)
    requires
        a.is_finite(),
        b.is_finite(),
        torus::size(accuracy::exact(a)) * torus::size(accuracy::exact(b)) <= accuracy::far(),
    ensures
        a.times(b).is_finite(),
{
    lemma_finite(a);
    lemma_finite(b);
    let (p, q) = (a.abs(), b.abs());
    accuracy::lemma_times_finite(p, q);
    let m = rounding::round_magnitude(
        scalar::units(a.magnitude()) * scalar::units(b.magnitude()),
        scalar::one_units(),
    );
    accuracy::lemma_counts(p);
    accuracy::lemma_counts(q);
    reveal(Scalar::times_spec);
    scalar::lemma_signed(false, m);
    scalar::lemma_signed(true, m);
}

/// A sum of numbers that is not too large is finite.
pub proof fn lemma_sum_finite(a: Scalar, b: Scalar)
    requires
        a.is_finite(),
        b.is_finite(),
        torus::size(accuracy::exact(a)) <= 1_000_000_000 as real,
        torus::size(accuracy::exact(b)) <= 1_000_000_000 as real,
    ensures
        a.plus(b).is_finite(),
{
    reveal(Scalar::plus_spec);
    lemma_pow2_pos(149);
    lemma2_to64();
    lemma_pow2_strictly_increases(32, 100);
    let (v, z) = (a.value() + b.value(), scalar::one_units() as real);
    let (x, y) = (a.value() as real, b.value() as real);
    accuracy::lemma_quotient_back(x, z);
    accuracy::lemma_quotient_back(y, z);
    let k = 1_000_000_000 as real;
    accuracy::lemma_order(x / z, k, z);
    accuracy::lemma_order(-k, x / z, z);
    accuracy::lemma_order(y / z, k, z);
    accuracy::lemma_order(-k, y / z, z);
    assert((-k) * z == -(k * z)) by (nonlinear_arith);
    accuracy::lemma_order(2 as real * k, accuracy::far(), z);
    assert((2 as real * k) * z == 2 as real * (k * z)) by (nonlinear_arith);
    let n = (if v >= 0 {
        v
    } else {
        -v
    }) as nat;
    accuracy::lemma_units_finite(n);
    scalar::lemma_signed(true, 0);
    scalar::lemma_signed(false, 0);
    scalar::lemma_signed(true, rounding::round_magnitude(n, 1));
    scalar::lemma_signed(false, rounding::round_magnitude(n, 1));
}

} // verus!
