//! Distances in the periodic box, as numbers: how closely the computed distance
//! of two points is the distance to the nearest periodic image.

use vstd::arithmetic::power2::*;
use vstd::prelude::*;

use crate::accuracy;
use crate::physics;
use crate::physics::{BubbleEvent, NucleationMode};
use crate::random;
use crate::rounding;
use crate::scalar;
use crate::scalar::{Scalar, HALF, TWO_AND_A_HALF, ZERO};

verus! {

/// Whether a point lies in the box from zero to `n` along each axis.
pub open spec fn in_box(a: [Scalar; 3], n: [Scalar; 3]) -> bool {
    &&& on_axis(a[0], n[0])
    &&& on_axis(a[1], n[1])
    &&& on_axis(a[2], n[2])
}

/// Whether a coordinate lies from zero to `n`.
pub open spec fn on_axis(a: Scalar, n: Scalar) -> bool {
    &&& accuracy::counts(n)
    &&& Scalar::of_bits(ZERO).le(a)
    &&& a.le(n)
}

/// The size of a number.
pub open spec fn size(x: real) -> real {
    if x >= 0 as real {
        x
    } else {
        -x
    }
}

/// How far apart two coordinates are on a circle of length `n`, where `x` is
/// their difference: the shorter of the two ways round.
pub open spec fn shorter_way(x: real, n: real) -> real {
    if size(x) <= n - size(x) {
        size(x)
    } else {
        n - size(x)
    }
}

/// The square of the distance between two points of a box, the shorter way along
/// each axis.
pub open spec fn least_square(a: [Scalar; 3], b: [Scalar; 3], n: [Scalar; 3]) -> real {
    let (x, y, z) = (
        axis_way(a[0], b[0], n[0]),
        axis_way(a[1], b[1], n[1]),
        axis_way(a[2], b[2], n[2]),
    );
    x * x + y * y + z * z
}

/// The shorter way between two coordinates.
pub open spec fn axis_way(a: Scalar, b: Scalar, n: Scalar) -> real {
    shorter_way(accuracy::exact(a) - accuracy::exact(b), accuracy::exact(n))
}

/// The square of the distance between a point and the image of another that is
/// shifted by whole box lengths.
pub open spec fn image_square(
    a: [Scalar; 3],
    b: [Scalar; 3],
    n: [Scalar; 3],
    shift: (int, int, int),
) -> real {
    let (x, y, z) = (
        image_way(a[0], b[0], n[0], shift.0),
        image_way(a[1], b[1], n[1], shift.1),
        image_way(a[2], b[2], n[2], shift.2),
    );
    x * x + y * y + z * z
}

/// How far one coordinate is from the shifted image of another.
pub open spec fn image_way(a: Scalar, b: Scalar, n: Scalar, k: int) -> real {
    size((accuracy::exact(a) - accuracy::exact(b)) + k as real * accuracy::exact(n))
}

/// A larger size has a larger square.
pub proof fn lemma_square_order(x: real, y: real)
    requires
        0 as real <= x <= y,
    ensures
        x * x <= y * y,
{
    accuracy::lemma_order(x, y, x);
    accuracy::lemma_order(x, y, y);
}

/// No shift by whole lengths brings two coordinates closer than the shorter way,
/// which is half the length at most.
proof fn lemma_shorter_way(x: real, n: real, k: int)
    requires
        size(x) <= n,
    ensures
        0 as real <= shorter_way(x, n),
        2 as real * shorter_way(x, n) <= n,
        shorter_way(x, n) <= size(x + k as real * n),
{
    if k >= 1 {
        accuracy::lemma_order(1 as real, k as real, n);
    } else if k <= -1 {
        accuracy::lemma_order(k as real, -1int as real, n);
        assert(-1int as real * n == -n) by (nonlinear_arith);
    } else {
        assert(0int as real * n == 0 as real) by (nonlinear_arith);
    }
}

/// One of the shifts by a length, or none, is the shorter way.
proof fn lemma_shift(x: real, n: real) -> (k: int)
    requires
        size(x) <= n,
    ensures
        shorter_way(x, n) == size(x + k as real * n),
        -1 <= k <= 1,
{
    assert(0int as real * n == 0 as real) by (nonlinear_arith);
    assert(1int as real * n == n) by (nonlinear_arith);
    assert((-1int) as real * n == -n) by (nonlinear_arith);
    if size(x) <= n - size(x) {
        0
    } else if x >= 0 as real {
        -1
    } else {
        1
    }
}

/// What a coordinate on an axis is: only a zero may have a sign.
proof fn lemma_on_axis(a: Scalar, n: Scalar)
    requires
        on_axis(a, n),
    ensures
        a.is_finite(),
        0 as real <= accuracy::exact(a) <= accuracy::exact(n),
        0 <= a.value() <= scalar::units(n.bits as nat),
        accuracy::counts(a.abs()),
        a.abs().value() == a.value(),
{
    accuracy::lemma_counts(n);
    scalar::lemma_units_zero(0);
    scalar::lemma_units_zero(a.magnitude());
    if a.magnitude() >= rounding::INFINITE {
        scalar::lemma_units_order(n.bits as nat, a.magnitude());
    }
    scalar::lemma_signed(false, a.magnitude());
    let (x, y, z) = (
        a.value() as real,
        scalar::units(n.bits as nat) as real,
        scalar::one_units() as real,
    );
    assert(0 as real <= x / z <= y / z) by (nonlinear_arith)
        requires
            0 as real <= x,
            x <= y,
            z > 0 as real,
    ;
}

/// The shorter way along each axis leads to the nearest of all the periodic
/// images of a point, and is half the diagonal of the box at most.
pub proof fn law_shorter_ways_lead_to_the_nearest_image(
    a: [Scalar; 3],
    b: [Scalar; 3],
    n: [Scalar; 3],
)
    requires
        in_box(a, n),
        in_box(b, n),
    ensures
        forall|shift: (int, int, int)|
            least_square(a, b, n) <= #[trigger] image_square(a, b, n, shift),
        exists|shift: (int, int, int)|
            least_square(a, b, n) == #[trigger] image_square(a, b, n, shift),
        ({
            let (x, y, z) = (
                accuracy::exact(n[0]),
                accuracy::exact(n[1]),
                accuracy::exact(n[2]),
            );
            4 as real * least_square(a, b, n) <= x * x + y * y + z * z
        }),
{
    lemma_on_axis(a[0], n[0]);
    lemma_on_axis(a[1], n[1]);
    lemma_on_axis(a[2], n[2]);
    lemma_on_axis(b[0], n[0]);
    lemma_on_axis(b[1], n[1]);
    lemma_on_axis(b[2], n[2]);
    let (x, y, z) = (
        accuracy::exact(a[0]) - accuracy::exact(b[0]),
        accuracy::exact(a[1]) - accuracy::exact(b[1]),
        accuracy::exact(a[2]) - accuracy::exact(b[2]),
    );
    let (u, v, w) = (accuracy::exact(n[0]), accuracy::exact(n[1]), accuracy::exact(n[2]));
    assert forall|shift: (int, int, int)|
        least_square(a, b, n) <= #[trigger] image_square(a, b, n, shift) by {
        lemma_shorter_way(x, u, shift.0);
        lemma_shorter_way(y, v, shift.1);
        lemma_shorter_way(z, w, shift.2);
        lemma_square_order(shorter_way(x, u), size(x + shift.0 as real * u));
        lemma_square_order(shorter_way(y, v), size(y + shift.1 as real * v));
        lemma_square_order(shorter_way(z, w), size(z + shift.2 as real * w));
    }
    let shift = (lemma_shift(x, u), lemma_shift(y, v), lemma_shift(z, w));
    assert(least_square(a, b, n) == image_square(a, b, n, shift));
    lemma_half_square(x, u);
    lemma_half_square(y, v);
    lemma_half_square(z, w);
}

proof fn lemma_half_square(x: real, n: real)
    requires
        size(x) <= n,
    ensures
        4 as real * (shorter_way(x, n) * shorter_way(x, n)) <= n * n,
{
    lemma_shorter_way(x, n, 0);
    let s = shorter_way(x, n);
    lemma_square_order(2 as real * s, n);
    assert((2 as real * s) * (2 as real * s) == 4 as real * (s * s)) by (nonlinear_arith);
}

// ---------------------------------------------------------------------------
//  The computed distance
// ---------------------------------------------------------------------------

/// A step of a length of one or more is far above the smallest number.
proof fn lemma_steps(m: real)
    requires
        m >= 1 as real,
    ensures
        ({
            let q = accuracy::step() * m;
            &&& q > 0 as real
            &&& 0x80_0000 as real * q == m
            &&& 1000 as real * accuracy::unit() <= q
            &&& accuracy::unit() > 0 as real
        }),
{
    accuracy::lemma_step();
    let (e, u) = (accuracy::step(), accuracy::unit());
    let q = e * m;
    accuracy::lemma_order(1 as real, m, e);
    assert(0x80_0000 as real * q == m) by (nonlinear_arith)
        requires
            q == e * m,
            0x80_0000 as real * e == 1 as real,
    ;
    lemma2_to64();
    lemma_pow2_strictly_increases(64, 149);
    let z = scalar::one_units() as real;
    accuracy::lemma_quotient_back(1 as real, z);
    assert(0x100_0000_0000 as real * u <= 1 as real) by (nonlinear_arith)
        requires
            u * z == 1 as real,
            z >= 0x100_0000_0000 as real,
            u > 0 as real,
    ;
}

/// A number without its sign.
proof fn lemma_abs(x: Scalar)
    requires
        x.is_finite(),
    ensures
        accuracy::counts(x.abs()),
        x.abs().bits == x.magnitude(),
        accuracy::exact(x.abs()) == size(accuracy::exact(x)),
{
    scalar::lemma_signed(false, x.magnitude());
    accuracy::lemma_counts(x.abs());
    let (v, z) = (scalar::units(x.magnitude()) as real, scalar::one_units() as real);
    lemma_pow2_pos(149);
    assert(v / z >= 0 as real && (-v) / z == -(v / z)) by (nonlinear_arith)
        requires
            v >= 0 as real,
            z > 0 as real,
    ;
}

/// A difference of coordinates is no longer than the axis.
proof fn lemma_difference_on_axis(a: Scalar, b: Scalar, n: Scalar)
    requires
        on_axis(a, n),
        on_axis(b, n),
    ensures
        a.minus(b).is_finite(),
        a.minus(b).magnitude() <= n.bits,
        a.minus(b).abs() == a.abs().minus(b.abs()).abs(),
{
    reveal(Scalar::plus_spec);
    lemma_on_axis(a, n);
    lemma_on_axis(b, n);
    scalar::lemma_signed(!b.negative(), b.magnitude());
    let v = a.value() - b.value();
    let w = if v >= 0 {
        v as nat
    } else {
        (-v) as nat
    };
    assert(1 * scalar::units(n.bits as nat) == scalar::units(n.bits as nat));
    scalar::lemma_round_bounded(w, 1, n.bits as nat);
    scalar::lemma_signed(false, rounding::round_magnitude(w, 1));
    scalar::lemma_signed(true, rounding::round_magnitude(w, 1));
    scalar::lemma_signed(false, 0);
    scalar::lemma_signed(true, 0);
    scalar::lemma_signed(true, b.abs().magnitude());
}

/// A difference of a number and one no larger has no sign.
proof fn lemma_remainder(n: Scalar, d: Scalar)
    requires
        accuracy::counts(n),
        accuracy::counts(d),
        d.bits <= n.bits,
    ensures
        accuracy::counts(n.minus(d)),
        accuracy::exact(d) <= accuracy::exact(n),
{
    reveal(Scalar::plus_spec);
    accuracy::lemma_counts(n);
    accuracy::lemma_counts(d);
    if d.bits < n.bits {
        scalar::lemma_units_order(d.bits as nat, n.bits as nat);
    }
    scalar::lemma_units_zero(0);
    assert(on_axis(d, n));
    lemma_on_axis(d, n);
    accuracy::lemma_minus_within(n, d);
    scalar::lemma_signed(true, d.magnitude());
    let v = n.value() - d.value();
    scalar::lemma_signed(false, rounding::round_magnitude(v as nat, 1));
    scalar::lemma_signed(false, 0);
    assert(!n.minus(d).negative());
    assert(n.minus(d).bits == n.minus(d).magnitude());
}

/// Half of a length.
proof fn lemma_half_length(n: Scalar)
    requires
        accuracy::counts(n),
    ensures
        ({
            let h = Scalar::of_bits(HALF).times(n);
            let x = accuracy::exact(n);
            &&& accuracy::counts(h)
            &&& accuracy::within(
                accuracy::exact(h),
                x / 2 as real,
                accuracy::step() * (x / 2 as real) + accuracy::unit(),
            )
        }),
{
    accuracy::lemma_constants();
    accuracy::lemma_counts(n);
    let half = Scalar::of_bits(HALF);
    accuracy::lemma_positive(half);
    let (z, u, h) = (
        scalar::one_units(),
        scalar::units(n.bits as nat),
        scalar::units(HALF as nat),
    );
    assert(half.times(n).is_finite()) by {
        reveal(Scalar::times_spec);
        assert(h * u <= z * u) by (nonlinear_arith)
            requires
                h <= z,
                u >= 0,
        ;
        scalar::lemma_round_bounded(h * u, z, n.bits as nat);
        scalar::lemma_signed(false, rounding::round_magnitude(h * u, z));
    }
    accuracy::lemma_times_within(half, n);
    accuracy::lemma_constant(HALF, 1, 2);
    let x = accuracy::exact(n);
    assert((1int as real / 2int as real) * x == x / 2 as real);
}

/// The computed gap along an axis is the shorter way, up to six steps.
proof fn lemma_gap(a: Scalar, b: Scalar, n: Scalar, m: real)
    requires
        on_axis(a, n),
        on_axis(b, n),
        m >= 1 as real,
        accuracy::exact(n) <= m,
    ensures
        ({
            let g = physics::axis_gap(a, b, n);
            &&& accuracy::counts(g)
            &&& accuracy::within(
                accuracy::exact(g),
                axis_way(a, b, n),
                6 as real * (accuracy::step() * m),
            )
        }),
{
    lemma_on_axis(a, n);
    lemma_on_axis(b, n);
    lemma_steps(m);
    accuracy::lemma_step();
    let (e, u) = (accuracy::step(), accuracy::unit());
    let q = e * m;
    let (x, l) = (accuracy::exact(a) - accuracy::exact(b), accuracy::exact(n));
    accuracy::lemma_minus_within(a.abs(), b.abs());
    lemma_difference_on_axis(a, b, n);
    lemma_abs(a.minus(b));
    lemma_abs(a.abs().minus(b.abs()));
    let d = a.minus(b).abs();
    let y = accuracy::exact(d);
    accuracy::lemma_order(size(x), m, e);
    assert(accuracy::within(y, size(x), q));
    lemma_half_length(n);
    let half = Scalar::of_bits(HALF).times(n);
    let h = accuracy::exact(half);
    accuracy::lemma_order(l / 2 as real, m / 2 as real, e);
    assert(e * (m / 2 as real) == q / 2 as real) by (nonlinear_arith)
        requires
            q == e * m,
    ;
    assert(accuracy::within(h, l / 2 as real, q / 2 as real + u));
    accuracy::lemma_exact_order(half, d);
    lemma_remainder(n, d);
    accuracy::lemma_minus_within(n, d);
    accuracy::lemma_counts(d);
    accuracy::lemma_order(l - y, m, e);
}

/// Close sizes have close squares.
proof fn lemma_squares_within(x: real, y: real, d: real, b: real)
    requires
        accuracy::within(x, y, d),
        0 as real <= x,
        0 as real <= y,
        x + y <= b,
        d >= 0 as real,
    ensures
        accuracy::within(x * x, y * y, d * b),
{
    let (s, t) = (x - y, x + y);
    assert(x * x - y * y == s * t) by (nonlinear_arith)
        requires
            s == x - y,
            t == x + y,
    ;
    accuracy::lemma_order(s, d, t);
    accuracy::lemma_order(-d, s, t);
    accuracy::lemma_order(t, b, d);
    assert((-d) * t == -(d * t)) by (nonlinear_arith);
}

/// The computed square of a gap is that of the shorter way, up to seven steps.
proof fn lemma_gap_square(a: Scalar, b: Scalar, n: Scalar, m: real)
    requires
        on_axis(a, n),
        on_axis(b, n),
        m >= 1 as real,
        accuracy::exact(n) <= m,
        physics::axis_gap(a, b, n).squared().is_finite(),
    ensures
        ({
            let s = physics::axis_gap(a, b, n).squared();
            let w = axis_way(a, b, n);
            let p = m * m;
            &&& accuracy::counts(s)
            &&& accuracy::within(accuracy::exact(s), w * w, 7 as real * (accuracy::step() * p))
            &&& 0 as real <= 4 as real * (w * w) <= p
        }),
{
    let g = physics::axis_gap(a, b, n);
    lemma_gap(a, b, n, m);
    lemma_on_axis(a, n);
    lemma_on_axis(b, n);
    lemma_steps(m);
    accuracy::lemma_step();
    accuracy::lemma_counts(g);
    let (e, u, p) = (accuracy::step(), accuracy::unit(), m * m);
    let (q, r) = (e * m, e * p);
    let (x, w, l) = (accuracy::exact(g), axis_way(a, b, n), accuracy::exact(n));
    let c = accuracy::exact(a) - accuracy::exact(b);
    lemma_shorter_way(c, l, 0);
    lemma_half_square(c, l);
    lemma_square_order(l, m);
    accuracy::lemma_order(1 as real, m, m);
    accuracy::lemma_positive_product(m, m);
    lemma_steps(p);
    // Six steps of length against twice the way.
    let b2 = m + m / 100 as real;
    lemma_squares_within(x, w, 6 as real * q, b2);
    assert((6 as real * q) * b2 == 6 as real * r + (6 as real * r) / 100 as real) by (nonlinear_arith)
        requires
            q == e * m,
            r == e * (m * m),
            b2 == m + m / 100 as real,
    ;
    accuracy::lemma_times_within(g, g);
    let t = x * x;
    assert(t <= p / 2 as real);
    accuracy::lemma_order(t, p / 2 as real, e);
    assert(e * (p / 2 as real) == r / 2 as real) by (nonlinear_arith)
        requires
            r == e * p,
    ;
    accuracy::lemma_order(0 as real, w, w);
}

/// A finite sum is one of finite numbers.
proof fn lemma_finite_sum(a: Scalar, b: Scalar)
    requires
        a.plus(b).is_finite(),
    ensures
        a.is_finite(),
        b.is_finite(),
{
    reveal(Scalar::plus_spec);
}

/// Zero stands for zero.
proof fn lemma_zero()
    ensures
        accuracy::exact(Scalar::of_bits(ZERO)) == 0 as real,
{
    scalar::lemma_units_zero(0);
    accuracy::lemma_counts(Scalar::of_bits(ZERO));
    let z = scalar::one_units() as real;
    assert(0 as real / z == 0 as real) by (nonlinear_arith)
        requires
            z > 0 as real,
    ;
}

/// A computed sum of terms that are each known up to a margin.
proof fn lemma_sum_within(
    a: Scalar,
    b: Scalar,
    x: real,
    y: real,
    c: real,
    d: real,
    k: real,
    p: real,
)
    requires
        accuracy::counts(a),
        accuracy::counts(b),
        a.plus(b).is_finite(),
        accuracy::within(accuracy::exact(a), x, c),
        accuracy::within(accuracy::exact(b), y, d),
        accuracy::exact(a) + accuracy::exact(b) <= k * p,
    ensures
        accuracy::counts(a.plus(b)),
        accuracy::within(
            accuracy::exact(a.plus(b)),
            x + y,
            c + d + k * (accuracy::step() * p),
        ),
{
    accuracy::lemma_plus_within(a, b);
    accuracy::lemma_step();
    let e = accuracy::step();
    accuracy::lemma_order(accuracy::exact(a) + accuracy::exact(b), k * p, e);
    assert(e * (k * p) == k * (e * p)) by (nonlinear_arith);
}

/// The computed root of a number squares back to it, up to three steps.
pub proof fn lemma_root_within(s: Scalar)
    requires
        accuracy::counts(s),
    ensures
        ({
            let r = accuracy::exact(s.sqrt());
            let x = accuracy::exact(s);
            &&& accuracy::counts(s.sqrt())
            &&& accuracy::within(r * r, x, 3 as real * (accuracy::step() * x))
        }),
{
    accuracy::lemma_counts(s);
    if s.bits == 0 {
        scalar::lemma_units_zero(0);
        assert(s.sqrt() == s) by {
            reveal(Scalar::sqrt_spec);
        }
        let x = accuracy::exact(s);
        lemma_zero();
        assert(x == 0 as real);
        assert(x * x == 0 as real && accuracy::step() * x == 0 as real) by (nonlinear_arith)
            requires
                x == 0 as real,
        ;
    } else {
        accuracy::lemma_sqrt_near(s);
        let r = accuracy::exact(s.sqrt());
        accuracy::lemma_near_within(r * r, accuracy::exact(s), 3);
        accuracy::lemma_positive(s.sqrt());
    }
}

/// The computed distance of two points of a box is the distance to the nearest
/// periodic image, the square of it up to thirty-two steps of the square of the
/// longest side, and so half the diagonal at most up to as much.
pub proof fn law_distance_is_to_the_nearest_image(
    a: [Scalar; 3],
    b: [Scalar; 3],
    n: [Scalar; 3],
    longest: real,
)
    requires
        in_box(a, n),
        in_box(b, n),
        longest >= 1 as real,
        accuracy::exact(n[0]) <= longest,
        accuracy::exact(n[1]) <= longest,
        accuracy::exact(n[2]) <= longest,
        physics::periodic_distance(a, b, n).is_finite(),
    ensures
        ({
            let r = accuracy::exact(physics::periodic_distance(a, b, n));
            let (x, y, z) = (
                accuracy::exact(n[0]),
                accuracy::exact(n[1]),
                accuracy::exact(n[2]),
            );
            let margin = 32 as real * (accuracy::step() * (longest * longest));
            &&& r >= 0 as real
            &&& accuracy::within(r * r, least_square(a, b, n), margin)
            &&& r * r <= (x * x + y * y + z * z) / 4 as real + margin
        }),
{
    let zero = Scalar::of_bits(ZERO);
    let s0 = physics::axis_gap(a[0], b[0], n[0]).squared();
    let s1 = physics::axis_gap(a[1], b[1], n[1]).squared();
    let s2 = physics::axis_gap(a[2], b[2], n[2]).squared();
    let t0 = zero.plus(s0);
    let t1 = t0.plus(s1);
    let t2 = t1.plus(s2);
    assert(t2.is_finite()) by {
        reveal(Scalar::sqrt_spec);
    }
    lemma_finite_sum(t1, s2);
    lemma_finite_sum(t0, s1);
    lemma_finite_sum(zero, s0);
    lemma_gap_square(a[0], b[0], n[0], longest);
    lemma_gap_square(a[1], b[1], n[1], longest);
    lemma_gap_square(a[2], b[2], n[2], longest);
    let p = longest * longest;
    accuracy::lemma_order(1 as real, longest, longest);
    lemma_steps(p);
    let q = accuracy::step() * p;
    let (x, y, z) = (
        axis_way(a[0], b[0], n[0]),
        axis_way(a[1], b[1], n[1]),
        axis_way(a[2], b[2], n[2]),
    );
    lemma_zero();
    let third = 1 as real / 3 as real;
    lemma_sum_within(zero, s0, 0 as real, x * x, 0 as real, 7 as real * q, third, p);
    lemma_sum_within(
        t0,
        s1,
        x * x,
        y * y,
        7 as real * q + third * q,
        7 as real * q,
        1 as real,
        p,
    );
    lemma_sum_within(
        t1,
        s2,
        x * x + y * y,
        z * z,
        14 as real * q + third * q + q,
        7 as real * q,
        1 as real,
        p,
    );
    lemma_root_within(t2);
    accuracy::lemma_step();
    accuracy::lemma_order(accuracy::exact(t2), p, accuracy::step());
    accuracy::lemma_counts(t2.sqrt());
    law_shorter_ways_lead_to_the_nearest_image(a, b, n);
}

// ---------------------------------------------------------------------------
//  Boxes of whole cells
// ---------------------------------------------------------------------------

/// `2^32`, `2^64`, `2^65` and `2^66`.
const MOST_CELLS: u32 = 0x4f80_0000;

const MOST_SQUARE: u32 = 0x5f80_0000;

const TWO_SQUARES: u32 = 0x6000_0000;

const FOUR_SQUARES: u32 = 0x6080_0000;

proof fn lemma_large_numbers()
    ensures
        scalar::units(MOST_CELLS as nat) == pow2(181),
        scalar::units(MOST_SQUARE as nat) == pow2(213),
        scalar::units(TWO_SQUARES as nat) == 2 * pow2(213),
        scalar::units(FOUR_SQUARES as nat) == 4 * pow2(213),
        pow2(181) * pow2(181) == scalar::one_units() * pow2(213),
{
    lemma2_to64();
    assert(scalar::significand(MOST_CELLS as nat) == 0x80_0000 && scalar::exponent(
        MOST_CELLS as nat,
    ) == 158);
    assert(scalar::significand(MOST_SQUARE as nat) == 0x80_0000 && scalar::exponent(
        MOST_SQUARE as nat,
    ) == 190);
    assert(scalar::significand(TWO_SQUARES as nat) == 0x80_0000 && scalar::exponent(
        TWO_SQUARES as nat,
    ) == 191);
    assert(scalar::significand(FOUR_SQUARES as nat) == 0x80_0000 && scalar::exponent(
        FOUR_SQUARES as nat,
    ) == 192);
    rounding::lemma_pow2_sum(23, 158);
    rounding::lemma_pow2_sum(23, 190);
    rounding::lemma_pow2_sum(23, 191);
    rounding::lemma_pow2_sum(23, 192);
    rounding::lemma_pow2_sum(1, 213);
    rounding::lemma_pow2_sum(2, 213);
    rounding::lemma_pow2_sum(181, 181);
    rounding::lemma_pow2_sum(149, 213);
}

/// The length of a side of a grid.
proof fn lemma_side(n: u32)
    ensures
        accuracy::counts(Scalar::of_integer(n as u64)),
        Scalar::of_integer(n as u64).bits <= MOST_CELLS,
{
    reveal(Scalar::of_integer_spec);
    lemma_large_numbers();
    lemma2_to64();
    let z = scalar::one_units();
    let v = n as nat * z;
    rounding::lemma_pow2_sum(32, 149);
    assert(v <= pow2(32) * z) by (nonlinear_arith)
        requires
            v == n as nat * z,
            n as nat <= pow2(32),
    ;
    assert(1 * pow2(181) == pow2(181));
    scalar::lemma_round_bounded(v, 1, MOST_CELLS as nat);
    scalar::lemma_signed(false, rounding::round_magnitude(v, 1));
    let s = Scalar::of_integer(n as u64);
    assert(s.bits == s.magnitude());
}

/// A gap is no longer than the axis.
proof fn lemma_gap_on_axis(a: Scalar, b: Scalar, n: Scalar)
    requires
        on_axis(a, n),
        on_axis(b, n),
    ensures
        physics::axis_gap(a, b, n).bits <= n.bits,
{
    lemma_difference_on_axis(a, b, n);
    lemma_abs(a.minus(b));
    let d = a.minus(b).abs();
    lemma_remainder(n, d);
    assert(on_axis(d, n) && on_axis(n, n)) by {
        scalar::lemma_units_zero(0);
        accuracy::lemma_counts(d);
        accuracy::lemma_counts(n);
        if d.bits < n.bits {
            scalar::lemma_units_order(d.bits as nat, n.bits as nat);
        }
    }
    lemma_difference_on_axis(n, d, n);
    accuracy::lemma_counts(n.minus(d));
}

/// The square of a gap in a grid.
proof fn lemma_grid_square(a: Scalar, b: Scalar, n: Scalar)
    requires
        on_axis(a, n),
        on_axis(b, n),
        n.bits <= MOST_CELLS,
    ensures
        physics::axis_gap(a, b, n).squared().bits <= MOST_SQUARE,
{
    lemma_gap_on_axis(a, b, n);
    lemma_large_numbers();
    let g = physics::axis_gap(a, b, n);
    accuracy::lemma_counts(g);
    let (u, z, p) = (scalar::units(g.bits as nat), scalar::one_units(), pow2(181));
    if g.bits < MOST_CELLS {
        scalar::lemma_units_order(g.bits as nat, MOST_CELLS as nat);
    }
    assert(u * u <= p * p) by (nonlinear_arith)
        requires
            0 <= u <= p,
    ;
    reveal(Scalar::times_spec);
    scalar::lemma_round_bounded(u * u, z, MOST_SQUARE as nat);
    scalar::lemma_signed(false, rounding::round_magnitude(u * u, z));
    assert(g.squared().bits == g.squared().magnitude());
}

/// A sum of bounded numbers is bounded.
proof fn lemma_bounded_sum(a: Scalar, b: Scalar, bound: u32)
    requires
        accuracy::counts(a),
        accuracy::counts(b),
        bound < rounding::INFINITE,
        scalar::units(a.bits as nat) + scalar::units(b.bits as nat) <= scalar::units(bound as nat),
    ensures
        a.plus(b).bits <= bound,
        scalar::units(a.plus(b).bits as nat) <= scalar::units(bound as nat),
{
    reveal(Scalar::plus_spec);
    accuracy::lemma_counts(a);
    accuracy::lemma_counts(b);
    let v = (a.value() + b.value()) as nat;
    assert(1 * scalar::units(bound as nat) == scalar::units(bound as nat));
    scalar::lemma_round_bounded(v, 1, bound as nat);
    scalar::lemma_signed(false, rounding::round_magnitude(v, 1));
    scalar::lemma_signed(false, 0);
    let s = a.plus(b);
    assert(s.bits == s.magnitude());
    if s.bits < bound {
        scalar::lemma_units_order(s.bits as nat, bound as nat);
    }
}

/// Points in the box of a grid are at a finite distance, whatever the grid, so the
/// distance between bubbles is always the one to the nearest image.
pub proof fn law_distance_in_a_grid_is_finite(a: [Scalar; 3], b: [Scalar; 3], grid: [u32; 3])
    requires
        physics::in_box(a, grid),
        physics::in_box(b, grid),
    ensures
        in_box(a, physics::box_lengths(grid)),
        in_box(b, physics::box_lengths(grid)),
        physics::periodic_distance(a, b, physics::box_lengths(grid)).is_finite(),
{
    let n = physics::box_lengths(grid);
    lemma_side(grid[0]);
    lemma_side(grid[1]);
    lemma_side(grid[2]);
    assert(a[0].le(n[0]) && a[1].le(n[1]) && a[2].le(n[2]));
    assert(b[0].le(n[0]) && b[1].le(n[1]) && b[2].le(n[2]));
    lemma_distance_counts(a, b, grid);
}

proof fn lemma_at_most(s: Scalar)
    requires
        s.bits <= MOST_SQUARE,
    ensures
        scalar::units(s.bits as nat) <= scalar::units(MOST_SQUARE as nat),
{
    if s.bits < MOST_SQUARE {
        scalar::lemma_units_order(s.bits as nat, MOST_SQUARE as nat);
    }
}

// ---------------------------------------------------------------------------
//  Bubbles in a box
// ---------------------------------------------------------------------------

/// The least distance kept between seeds is two and a half radii, up to rounding.
pub proof fn law_least_separation_is_in_radii(radius: Scalar)
    requires
        accuracy::positive(radius),
        physics::min_separation(radius).is_finite(),
    ensures
        ({
            let wanted = 5 as real * accuracy::exact(radius) / 2 as real;
            &&& accuracy::counts(physics::min_separation(radius))
            &&& accuracy::within(
                accuracy::exact(physics::min_separation(radius)),
                wanted,
                accuracy::step() * wanted + accuracy::unit(),
            )
        }),
{
    let c = Scalar::of_bits(TWO_AND_A_HALF);
    lemma2_to64();
    rounding::lemma_pow2_sum(22, 127);
    rounding::lemma_pow2_sum(1, 22);
    assert(scalar::significand(TWO_AND_A_HALF as nat) == 0xa0_0000 && scalar::exponent(
        TWO_AND_A_HALF as nat,
    ) == 127);
    let p = pow2(127);
    assert(scalar::units(TWO_AND_A_HALF as nat) == 0xa0_0000 * p);
    assert(scalar::one_units() == 0x40_0000 * p);
    accuracy::lemma_constant(TWO_AND_A_HALF, 5, 2);
    accuracy::lemma_times_within(c, radius);
    let r = accuracy::exact(radius);
    assert((5int as real / 2int as real) * r == 5 as real * r / 2 as real);
}

/// Whether a place is clear of others is a matter of its distances in radii alone:
/// two and a half radii, up to rounding, decide.
pub proof fn law_clear_places_are_two_and_a_half_radii_off(
    pos: [Scalar; 3],
    earlier: Seq<BubbleEvent>,
    grid: [u32; 3],
    radius: Scalar,
)
    requires
        accuracy::positive(radius),
        physics::min_separation(radius).is_finite(),
        physics::in_box(pos, grid),
        forall|i: int|
            0 <= i < earlier.len() ==> physics::in_box((#[trigger] earlier[i]).pos, grid),
    ensures
        ({
            let wanted = 5 as real * accuracy::exact(radius) / 2 as real;
            let margin = accuracy::step() * wanted + accuracy::unit();
            let n = physics::box_lengths(grid);
            &&& physics::clear_of(pos, earlier, grid, radius) ==> forall|i: int|
                0 <= i < earlier.len() ==> accuracy::exact(
                    physics::periodic_distance(pos, (#[trigger] earlier[i]).pos, n),
                ) > wanted - margin
            &&& (forall|i: int|
                0 <= i < earlier.len() ==> accuracy::exact(
                    physics::periodic_distance(pos, (#[trigger] earlier[i]).pos, n),
                ) > wanted + margin) ==> physics::clear_of(pos, earlier, grid, radius)
        }),
{
    law_least_separation_is_in_radii(radius);
    let n = physics::box_lengths(grid);
    let least = physics::min_separation(radius);
    assert forall|i: int| 0 <= i < earlier.len() implies least.lt(
        physics::periodic_distance(pos, (#[trigger] earlier[i]).pos, n),
    ) == (accuracy::exact(least) < accuracy::exact(
        physics::periodic_distance(pos, earlier[i].pos, n),
    )) by {
        law_distance_in_a_grid_is_finite(pos, earlier[i].pos, grid);
        lemma_distance_counts(pos, earlier[i].pos, grid);
        accuracy::lemma_exact_order(least, physics::periodic_distance(pos, earlier[i].pos, n));
    }
    if physics::clear_of(pos, earlier, grid, radius) {
        assert forall|i: int| 0 <= i < earlier.len() implies accuracy::exact(
            physics::periodic_distance(pos, (#[trigger] earlier[i]).pos, n),
        ) > accuracy::exact(least) by {
            assert(least.lt(physics::periodic_distance(pos, earlier[i].pos, n)));
        }
    }
}

/// A distance in a grid has no sign.
proof fn lemma_distance_counts(a: [Scalar; 3], b: [Scalar; 3], grid: [u32; 3])
    requires
        physics::in_box(a, grid),
        physics::in_box(b, grid),
    ensures
        accuracy::counts(physics::periodic_distance(a, b, physics::box_lengths(grid))),
{
    let n = physics::box_lengths(grid);
    lemma_side(grid[0]);
    lemma_side(grid[1]);
    lemma_side(grid[2]);
    assert(a[0].le(n[0]) && a[1].le(n[1]) && a[2].le(n[2]));
    assert(b[0].le(n[0]) && b[1].le(n[1]) && b[2].le(n[2]));
    lemma_grid_square(a[0], b[0], n[0]);
    lemma_grid_square(a[1], b[1], n[1]);
    lemma_grid_square(a[2], b[2], n[2]);
    lemma_large_numbers();
    let zero = Scalar::of_bits(ZERO);
    scalar::lemma_units_zero(0);
    let s0 = physics::axis_gap(a[0], b[0], n[0]).squared();
    let s1 = physics::axis_gap(a[1], b[1], n[1]).squared();
    let s2 = physics::axis_gap(a[2], b[2], n[2]).squared();
    lemma_at_most(s0);
    lemma_at_most(s1);
    lemma_at_most(s2);
    lemma_bounded_sum(zero, s0, MOST_SQUARE);
    let t0 = zero.plus(s0);
    lemma_bounded_sum(t0, s1, TWO_SQUARES);
    let t1 = t0.plus(s1);
    lemma_bounded_sum(t1, s2, FOUR_SQUARES);
    lemma_root_within(t1.plus(s2));
}

/// A computed gap is not much larger than the way it stands for, and its computed
/// square not much larger than its square.
proof fn lemma_gap_above(a: Scalar, b: Scalar, n: Scalar, m: real, r: real)
    requires
        on_axis(a, n),
        on_axis(b, n),
        m >= 1 as real,
        m <= 150_000 as real * r,
        accuracy::exact(n) <= m,
        physics::axis_gap(a, b, n).squared().is_finite(),
        axis_way(a, b, n) <= 2 as real * r,
    ensures
        ({
            let s = physics::axis_gap(a, b, n).squared();
            let w = axis_way(a, b, n);
            &&& accuracy::counts(s)
            &&& 1000 as real * accuracy::exact(s) <= 1001 as real * (w * w) + 600 as real * (r * r)
            &&& w >= 0 as real
        }),
{
    let g = physics::axis_gap(a, b, n);
    lemma_gap(a, b, n, m);
    lemma_steps(m);
    lemma_unit_is_small();
    accuracy::lemma_step();
    accuracy::lemma_counts(g);
    lemma_on_axis(a, n);
    lemma_on_axis(b, n);
    let (e, u) = (accuracy::step(), accuracy::unit());
    let q = e * m;
    let (x, w) = (accuracy::exact(g), axis_way(a, b, n));
    lemma_shorter_way(accuracy::exact(a) - accuracy::exact(b), accuracy::exact(n), 0);
    let k = 6 as real * q;
    lemma_square_order(x, w + k);
    assert((w + k) * (w + k) == w * w + 2 as real * (w * k) + k * k) by (nonlinear_arith);
    assert(7 as real * k <= r);
    let p = r * r;
    accuracy::lemma_order(w, 2 as real * r, k);
    accuracy::lemma_order(k, r / 7 as real, r);
    accuracy::lemma_order(k, r / 7 as real, k);
    assert((2 as real * r) * k == 2 as real * (k * r) && (r / 7 as real) * k == (k * r) / 7 as real
        && (r / 7 as real) * r == p / 7 as real) by (nonlinear_arith)
        requires
            p == r * r,
    ;
    accuracy::lemma_times_within(g, g);
    let t = x * x;
    assert(0x80_0000 as real * (e * t) == t) by (nonlinear_arith)
        requires
            0x80_0000 as real * e == 1 as real,
    ;
    // The radius is far above the smallest number.
    accuracy::lemma_order(1 as real / 200_000 as real, r, r);
    accuracy::lemma_order(1 as real / 200_000 as real, r, 1 as real / 200_000 as real);
    assert(r * (1 as real / 200_000 as real) == (1 as real / 200_000 as real) * r)
        by (nonlinear_arith);
}

/// The smallest number is far below everything that has a size.
proof fn lemma_unit_is_small()
    ensures
        1_000_000_000_000_000_000 as real * accuracy::unit() <= 1 as real,
        accuracy::unit() > 0 as real,
{
    lemma2_to64();
    lemma_pow2_strictly_increases(64, 149);
    let (z, u) = (scalar::one_units() as real, accuracy::unit());
    accuracy::lemma_quotient_back(1 as real, z);
    assert(1_000_000_000_000_000_000 as real * u <= 1 as real) by (nonlinear_arith)
        requires
            u * z == 1 as real,
            z >= 1_000_000_000_000_000_000 as real,
            u > 0 as real,
    ;
}

/// Two places whose computed distance exceeds the least one are further apart than
/// two radii, the shorter way round.
proof fn lemma_kept_apart(
    a: [Scalar; 3],
    b: [Scalar; 3],
    grid: [u32; 3],
    radius: Scalar,
    longest: real,
)
    requires
        physics::in_box(a, grid),
        physics::in_box(b, grid),
        accuracy::positive(radius),
        longest >= 1 as real,
        longest <= 150_000 as real * accuracy::exact(radius),
        accuracy::exact(Scalar::of_integer(grid[0] as u64)) <= longest,
        accuracy::exact(Scalar::of_integer(grid[1] as u64)) <= longest,
        accuracy::exact(Scalar::of_integer(grid[2] as u64)) <= longest,
        physics::min_separation(radius).lt(
            physics::periodic_distance(a, b, physics::box_lengths(grid)),
        ),
    ensures
        ({
            let r = accuracy::exact(radius);
            least_square(a, b, physics::box_lengths(grid)) > 4 as real * (r * r)
        }),
{
    let n = physics::box_lengths(grid);
    let least = physics::min_separation(radius);
    law_distance_in_a_grid_is_finite(a, b, grid);
    lemma_distance_counts(a, b, grid);
    let dist = physics::periodic_distance(a, b, n);
    accuracy::lemma_counts(dist);
    accuracy::lemma_positive(radius);
    lemma_separation_is_finite(radius, dist);
    law_least_separation_is_in_radii(radius);
    accuracy::lemma_exact_order(least, dist);
    let r = accuracy::exact(radius);
    let p = r * r;
    if least_square(a, b, n) <= 4 as real * p {
        lemma_distance_above(a, b, n, longest, r);
        // The distance is at least 2.49 radii.
        let x = accuracy::exact(dist);
        let wanted = 5 as real * r / 2 as real;
        let e = accuracy::step();
        accuracy::lemma_step();
        assert(0x80_0000 as real * (e * wanted) == wanted) by (nonlinear_arith)
            requires
                0x80_0000 as real * e == 1 as real,
        ;
        lemma_unit_is_small();
        let y = 249 as real * r / 100 as real;
        assert(x >= y);
        lemma_square_order(y, x);
        assert(y * y == 62001 as real * p / 10000 as real) by (nonlinear_arith)
            requires
                y == 249 as real * r / 100 as real,
                p == r * r,
        ;
        accuracy::lemma_positive_product(r, r);
    }
}

/// What is below a finite number is finite.
proof fn lemma_separation_is_finite(radius: Scalar, dist: Scalar)
    requires
        accuracy::positive(radius),
        accuracy::counts(dist),
        physics::min_separation(radius).lt(dist),
    ensures
        physics::min_separation(radius).is_finite(),
{
    reveal(Scalar::times_spec);
    let c = Scalar::of_bits(TWO_AND_A_HALF);
    accuracy::lemma_positive(radius);
    accuracy::lemma_counts(dist);
    let k = rounding::round_magnitude(
        scalar::units(c.magnitude()) * scalar::units(radius.magnitude()),
        scalar::one_units(),
    );
    scalar::lemma_signed(false, k);
    if k >= rounding::INFINITE {
        scalar::lemma_units_order(dist.bits as nat, k);
    }
}

/// The computed distance of two places that are within two radii is small.
proof fn lemma_distance_above(a: [Scalar; 3], b: [Scalar; 3], n: [Scalar; 3], m: real, r: real)
    requires
        in_box(a, n),
        in_box(b, n),
        m >= 1 as real,
        m <= 150_000 as real * r,
        accuracy::exact(n[0]) <= m,
        accuracy::exact(n[1]) <= m,
        accuracy::exact(n[2]) <= m,
        physics::periodic_distance(a, b, n).is_finite(),
        least_square(a, b, n) <= 4 as real * (r * r),
    ensures
        ({
            let d = accuracy::exact(physics::periodic_distance(a, b, n));
            d * d <= 6 as real * (r * r)
        }),
{
    let zero = Scalar::of_bits(ZERO);
    let s0 = physics::axis_gap(a[0], b[0], n[0]).squared();
    let s1 = physics::axis_gap(a[1], b[1], n[1]).squared();
    let s2 = physics::axis_gap(a[2], b[2], n[2]).squared();
    let t0 = zero.plus(s0);
    let t1 = t0.plus(s1);
    let t2 = t1.plus(s2);
    assert(t2.is_finite()) by {
        reveal(Scalar::sqrt_spec);
    }
    lemma_finite_sum(t1, s2);
    lemma_finite_sum(t0, s1);
    lemma_finite_sum(zero, s0);
    let (x, y, z) = (
        axis_way(a[0], b[0], n[0]),
        axis_way(a[1], b[1], n[1]),
        axis_way(a[2], b[2], n[2]),
    );
    let p = r * r;
    lemma_ways_bounded(a[0], b[0], n[0]);
    lemma_ways_bounded(a[1], b[1], n[1]);
    lemma_ways_bounded(a[2], b[2], n[2]);
    lemma_way_from_square(x, r);
    lemma_way_from_square(y, r);
    lemma_way_from_square(z, r);
    lemma_gap_above(a[0], b[0], n[0], m, r);
    lemma_gap_above(a[1], b[1], n[1], m, r);
    lemma_gap_above(a[2], b[2], n[2], m, r);
    lemma_zero();
    lemma_sum_above(zero, s0);
    lemma_sum_above(t0, s1);
    lemma_sum_above(t1, s2);
    lemma_root_within(t2);
    lemma_step_share(accuracy::exact(t2));
    accuracy::lemma_positive_product(r, r);
    accuracy::lemma_counts(s0);
    accuracy::lemma_counts(s1);
    accuracy::lemma_counts(s2);
}

/// A way along an axis has a square.
proof fn lemma_ways_bounded(a: Scalar, b: Scalar, n: Scalar)
    requires
        on_axis(a, n),
        on_axis(b, n),
    ensures
        axis_way(a, b, n) >= 0 as real,
        axis_way(a, b, n) * axis_way(a, b, n) >= 0 as real,
{
    lemma_on_axis(a, n);
    lemma_on_axis(b, n);
    lemma_shorter_way(accuracy::exact(a) - accuracy::exact(b), accuracy::exact(n), 0);
    lemma_square_order(0 as real, axis_way(a, b, n));
}

/// A way whose square is at most four squares is at most two.
proof fn lemma_way_from_square(x: real, r: real)
    requires
        x >= 0 as real,
        r > 0 as real,
        x * x <= 4 as real * (r * r),
    ensures
        x <= 2 as real * r,
{
    let t = 2 as real * r;
    if x > t {
        accuracy::lemma_order(t, x, t);
        assert(t * x < x * x) by (nonlinear_arith)
            requires
                t < x,
                x > 0 as real,
        ;
        assert(t * t == 4 as real * (r * r)) by (nonlinear_arith)
            requires
                t == 2 as real * r,
        ;
    }
}

/// A step is a small share.
proof fn lemma_step_share(x: real)
    ensures
        0x80_0000 as real * (accuracy::step() * x) == x,
{
    accuracy::lemma_step();
    let e = accuracy::step();
    assert(0x80_0000 as real * (e * x) == x) by (nonlinear_arith)
        requires
            0x80_0000 as real * e == 1 as real,
    ;
}

/// A computed sum is not much larger than the sum.
proof fn lemma_sum_above(a: Scalar, b: Scalar)
    requires
        accuracy::counts(a),
        accuracy::counts(b),
        a.plus(b).is_finite(),
    ensures
        accuracy::counts(a.plus(b)),
        1000 as real * accuracy::exact(a.plus(b)) <= 1001 as real * (accuracy::exact(a)
            + accuracy::exact(b)),
        accuracy::exact(a.plus(b)) >= 0 as real,
{
    accuracy::lemma_plus_within(a, b);
    accuracy::lemma_counts(a);
    accuracy::lemma_counts(b);
    accuracy::lemma_counts(a.plus(b));
    lemma_step_share(accuracy::exact(a) + accuracy::exact(b));
}

/// Bubbles that each had room when their turn came do not overlap: the centres of
/// any two are further apart than two radii, the shorter way round the box.  A
/// radius may be as small as a hundred-and-fifty-thousandth of the longest side.
pub proof fn law_bubbles_with_room_do_not_overlap(
    mode: NucleationMode,
    count: nat,
    radius: Scalar,
    grid: [u32; 3],
    duration: Scalar,
    logs: Seq<Scalar>,
    seed: u64,
    longest: real,
)
    requires
        physics::all_have_room(
            mode,
            count,
            radius,
            grid,
            duration,
            logs,
            random::seeded_words(seed),
        ),
        accuracy::positive(radius),
        longest >= 1 as real,
        longest <= 150_000 as real * accuracy::exact(radius),
        accuracy::exact(Scalar::of_integer(grid[0] as u64)) <= longest,
        accuracy::exact(Scalar::of_integer(grid[1] as u64)) <= longest,
        accuracy::exact(Scalar::of_integer(grid[2] as u64)) <= longest,
    ensures
        ({
            let events = physics::schedule(mode, count, radius, grid, duration, logs, seed);
            let r = accuracy::exact(radius);
            forall|i: int, j: int|
                0 <= i < events.len() && 0 <= j < events.len() && i != j ==> least_square(
                    (#[trigger] events[i]).pos,
                    (#[trigger] events[j]).pos,
                    physics::box_lengths(grid),
                ) > 4 as real * (r * r)
        }),
{
    let events = physics::schedule(mode, count, radius, grid, duration, logs, seed);
    let r = accuracy::exact(radius);
    physics::law_schedule_keeps_distance(mode, count, radius, grid, duration, logs, seed);
    physics::law_bubbles_lie_in_the_box(mode, count, radius, grid, duration, logs, seed);
    assert forall|i: int, j: int|
        0 <= i < events.len() && 0 <= j < events.len() && i != j implies least_square(
        (#[trigger] events[i]).pos,
        (#[trigger] events[j]).pos,
        physics::box_lengths(grid),
    ) > 4 as real * (r * r) by {
        lemma_kept_apart(events[i].pos, events[j].pos, grid, radius, longest);
    }
}

} // verus!
