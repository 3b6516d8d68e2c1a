use bubble_simulation::scalar::Scalar;

fn s(x: f32) -> Scalar {
    Scalar::of_bits(x.to_bits())
}

fn f(x: Scalar) -> f32 {
    f32::from_bits(x.bits)
}

fn same(x: Scalar, y: f32) -> bool {
    if y.is_nan() {
        x.is_nan()
    } else {
        x.bits == y.to_bits()
    }
}

/// Patterns of every kind: zeros, subnormals, neighbours of powers of two,
/// infinities, NaN, and a long run of scattered ones.
fn patterns() -> Vec<u32> {
    let mut v: Vec<u32> = vec![
        0,
        1,
        2,
        0x007f_ffff,
        0x0080_0000,
        0x0080_0001,
        0x3f7f_ffff,
        0x3f80_0000,
        0x3f80_0001,
        0x4b7f_ffff,
        0x4b80_0000,
        0x7f7f_ffff,
        0x7f80_0000,
        0x7fc0_0000,
        0x3eaa_aaab,
        0x4049_0fdb,
    ];
    let mut x: u64 = 0x1234_5678_9abc_def1;
    for _ in 0..180 {
        x = x.wrapping_mul(6364136223846793005).wrapping_add(1442695040888963407);
        v.push((x >> 32) as u32);
        // Numbers of everyday size.
        v.push(0x3c00_0000 + (x >> 36) as u32 % 0x0a00_0000);
    }
    let negative: Vec<u32> = v.iter().map(|b| b ^ 0x8000_0000).collect();
    v.extend(negative);
    v
}

#[test]
fn arithmetic_is_that_of_the_machine() {
    let p = patterns();
    for a in &p {
        for b in &p {
            let (x, y) = (f32::from_bits(*a), f32::from_bits(*b));
            assert!(same(s(x).plus(s(y)), x + y), "{x} + {y}");
            assert!(same(s(x).minus(s(y)), x - y), "{x} - {y}");
            assert!(same(s(x).times(s(y)), x * y), "{x} * {y}");
            assert!(same(s(x).over(s(y)), x / y), "{x} / {y}");
        }
    }
}

#[test]
fn comparisons_are_those_of_the_machine() {
    let p = patterns();
    for a in &p {
        for b in &p {
            let (x, y) = (f32::from_bits(*a), f32::from_bits(*b));
            assert_eq!(s(x).lt(s(y)), x < y);
            assert_eq!(s(x).le(s(y)), x <= y);
            assert_eq!(s(x).same(s(y)), x == y);
            if x != y {
                assert!(same(s(x).max(s(y)), x.max(y)), "max({x}, {y})");
            }
        }
    }
}

#[test]
fn roots_are_those_of_the_machine() {
    for a in patterns() {
        let x = f32::from_bits(a);
        assert!(same(s(x).sqrt(), x.sqrt()), "sqrt({x})");
        assert!(same(s(x).abs(), x.abs()));
        assert!(same(s(x).negated(), -x));
        assert_eq!(s(x).is_finite(), x.is_finite());
        assert_eq!(s(x).is_nan(), x.is_nan());
    }
}

#[test]
fn powers_are_repeated_products() {
    for a in patterns() {
        let x = f32::from_bits(a);
        assert!(same(s(x).squared(), x * x));
        assert!(same(s(x).cubed(), x * (x * x)));
        assert!(same(s(x).fourth(), (x * x) * (x * x)));
    }
}

#[test]
fn integers_round_as_casts_do() {
    let mut n: u64 = 1;
    for _ in 0..300 {
        n = n.wrapping_mul(6364136223846793005).wrapping_add(1442695040888963407);
        for shift in 0..64 {
            let m = n >> shift;
            assert_eq!(Scalar::of_integer(m).bits, (m as f32).to_bits(), "{m}");
        }
    }
    assert_eq!(Scalar::of_integer(0).bits, 0);
    assert_eq!(Scalar::of_integer(16_777_217).bits, 16_777_216f32.to_bits());
    assert_eq!(Scalar::of_integer(u64::MAX).bits, (u64::MAX as f32).to_bits());
}

#[test]
fn clamp_moves_into_the_bounds() {
    assert_eq!(f(s(7.0).clamp(s(-1.0), s(2.0))), 2.0);
    assert_eq!(f(s(-7.0).clamp(s(-1.0), s(2.0))), -1.0);
    assert_eq!(f(s(0.5).clamp(s(-1.0), s(2.0))), 0.5);
    assert!(s(f32::NAN).clamp(s(-1.0), s(2.0)).is_nan());
}

#[test]
fn times_one_changes_nothing() {
    for a in patterns() {
        let x = f32::from_bits(a);
        if x.is_finite() {
            assert_eq!(s(x).times(s(1.0)).bits, a);
        }
    }
}

#[test]
fn half_over_itself_is_one_half() {
    for n in 1..3000u64 {
        let x = Scalar::of_integer(n);
        assert_eq!(f(s(0.5).times(x).over(x)), 0.5);
    }
}
