use bubble_simulation::physics::{
    axis_gap, draw_position, make_schedule, periodic_distance, rate_argument, uniform, BubbleEvent,
    Model, NucleationMode, SeedSize,
};
use bubble_simulation::scalar::Scalar;
use rand::{Rng, SeedableRng};
use rand_pcg::Pcg64Mcg;

fn s(x: f32) -> Scalar {
    Scalar::of_bits(x.to_bits())
}

fn f(x: Scalar) -> f32 {
    f32::from_bits(x.bits)
}

/// The logarithms an exponential schedule of `count` bubbles asks for.
fn logs(count: usize) -> Vec<Scalar> {
    let growth = s(4.0f32.exp());
    (0..count).map(|k| s(f(rate_argument(k, count, growth)).ln())).collect()
}

/// The derived coefficients must reproduce the three conditions the
/// potential was constructed to satisfy.
#[test]
fn potential_has_the_requested_shape() {
    let m = Model::default();
    let (m2, delta, lambda, phi_b) = (f(m.m2()), f(m.delta()), f(m.lambda), f(m.phi_b));
    let v = |p: f32| 0.5 * m2 * p * p - delta * p * p * p / 3.0 + 0.25 * lambda * p.powi(4);
    let dv = |p: f32| p * (m2 - delta * p + lambda * p * p);

    assert!(m2 > 0.0, "symmetric minimum must be metastable");
    assert!(dv(phi_b).abs() < 1e-6, "phi_b must be a stationary point");
    assert!(
        (v(phi_b) + f(m.eps())).abs() < 1e-6,
        "V(phi_b) must equal -eps, got {} vs {}",
        v(phi_b),
        -f(m.eps())
    );
    // And there must be a barrier in between.
    let top = (0..100)
        .map(|i| v(phi_b * i as f32 / 100.0))
        .fold(f32::NEG_INFINITY, f32::max);
    assert!(top > 0.0, "a first-order transition needs a barrier");
}

#[test]
fn degenerate_limit_is_the_symmetric_double_well() {
    let m = Model { eps_ratio: s(1e-6), ..Model::default() };
    // V = (lambda/4) phi^2 (phi - phi_b)^2 has m2 = lambda/2, delta = 3 lambda/2.
    assert!((f(m.m2()) - 0.5 * f(m.lambda)).abs() < 1e-4);
    assert!((f(m.delta()) - 1.5 * f(m.lambda)).abs() < 1e-4);
}

/// The thin-wall expressions collapse to R_c / l_w = 1 / eps_ratio exactly.
/// This is what puts a floor under how small a meaningful seed can be.
#[test]
fn critical_radius_is_never_smaller_than_the_wall() {
    for eps_ratio in [0.05, 0.2, 0.3, 0.6, 0.95] {
        for lambda in [0.1, 0.5, 1.5] {
            let m = Model { eps_ratio: s(eps_ratio), lambda: s(lambda), ..Model::default() };
            let ratio = f(m.critical_radius()) / f(m.wall_width());
            assert!(
                (ratio - f(m.critical_to_wall_ratio())).abs() < 1e-3 * ratio,
                "R_c/l_w should be 1/eps_ratio: got {ratio} vs {}",
                f(m.critical_to_wall_ratio())
            );
            assert!(ratio > 1.0, "the critical bubble must exceed its own wall");
        }
    }
}

#[test]
fn seed_radius_follows_the_chosen_mode() {
    let m = Model { seed_size: SeedSize::Critical(s(1.15)), ..Model::default() };
    assert!((f(m.seed_radius()) - 1.15 * f(m.critical_radius())).abs() < 1e-4);

    // A factor mode tracks R_c when the potential is retuned.
    let softer = Model { eps_ratio: s(0.6), ..m };
    assert!(f(softer.seed_radius()) < f(m.seed_radius()));

    // A cells mode does not.
    let fixed = Model { seed_size: SeedSize::Cells(s(7.5)), ..Model::default() };
    assert!((f(fixed.seed_radius()) - 7.5).abs() < 1e-6);
    let fixed_softer = Model { eps_ratio: s(0.6), ..fixed };
    assert!((f(fixed_softer.seed_radius()) - 7.5).abs() < 1e-6);
}

/// The thin-wall quality stays above one up to the last number below it.
#[test]
fn critical_bubbles_exceed_their_wall() {
    for bits in [1u32, 0x0080_0000, 0x3e99_999a, 0x3f7f_fffe, 0x3f7f_ffff] {
        let m = Model { eps_ratio: Scalar::of_bits(bits), ..Model::default() };
        assert!(m.validate().is_ok());
        assert!(f(m.critical_to_wall_ratio()) > 1.0);
    }
    let m = Model { eps_ratio: Scalar::of_bits(0x3f7f_ffff), ..Model::default() };
    assert_eq!(m.critical_to_wall_ratio().bits, 0x3f80_0001);
}

#[test]
fn sub_critical_seeds_are_allowed_so_collapse_can_be_shown() {
    let m = Model { seed_size: SeedSize::Critical(s(0.5)), ..Model::default() };
    m.validate().expect("sub-critical seeding is physical, not an error");
    assert!(f(m.seed_radius()) < f(m.critical_radius()));
}

#[test]
fn schedule_respects_ordering_and_bounds() {
    let grid = [64, 64, 64];
    let ev =
        make_schedule(NucleationMode::Exponential, 12, s(8.0), grid, s(40.0), &logs(12), 7);
    assert_eq!(ev.len(), 12);
    for w in ev.windows(2) {
        assert!(f(w[0].time) <= f(w[1].time));
    }
    for e in &ev {
        assert!(f(e.time) >= 0.0 && f(e.time) <= 40.0 + 1e-3);
        for (axis, n) in grid.iter().enumerate() {
            assert!(f(e.pos[axis]) >= 0.0 && f(e.pos[axis]) <= *n as f32);
        }
    }
}

/// Every derived quantity, in machine arithmetic.
#[test]
fn derived_quantities_have_their_closed_forms() {
    for (lambda, eps_ratio, alpha, eta) in
        [(0.5f32, 0.3f32, 0.1f32, 0.3f32), (1.7, 0.05, 0.9, 0.0), (0.07, 0.94, 0.005, 3.0)]
    {
        let m = Model {
            lambda: s(lambda),
            eps_ratio: s(eps_ratio),
            alpha: s(alpha),
            eta: s(eta),
            ..Model::default()
        };
        let eps = eps_ratio * lambda / 12.0;
        let sigma = (lambda / 2.0).sqrt() / 6.0;
        assert_eq!(f(m.eps()), eps);
        assert_eq!(f(m.m2()), 0.5 * lambda - 6.0 * eps);
        assert_eq!(f(m.delta()), 1.5 * lambda - 6.0 * eps);
        assert_eq!(f(m.wall_width()), 2.0 * std::f32::consts::SQRT_2 / lambda.sqrt());
        assert_eq!(f(m.surface_tension()), sigma);
        assert_eq!(f(m.critical_radius()), 2.0 * sigma / eps);
        assert_eq!(f(m.e_ref()), eps / alpha);
        assert_eq!(f(m.a_rad()), eps / alpha);
        assert_eq!(f(m.t_ref()), 1.0);
        assert_eq!(f(m.dt()), 0.2);
        assert_eq!(f(m.critical_to_wall_ratio()), 1.0 / eps_ratio);
        assert_eq!(f(m.sound_speed()), (1.0f32 / 3.0).sqrt());
        let x = eps / (eta.max(1e-6) * sigma);
        assert_eq!(f(m.estimated_wall_velocity()), x / (1.0 + x * x).sqrt());
    }
}

#[test]
fn seeds_are_never_below_a_quarter_cell() {
    let m = Model { seed_size: SeedSize::Cells(s(0.01)), ..Model::default() };
    assert_eq!(f(m.seed_radius()), 0.25);
}

#[test]
fn every_model_fault_is_named() {
    let d = Model::default();
    let fault = |m: Model| m.validate().unwrap_err();
    assert!(d.validate().is_ok());
    for bad in [0.0, 1.0, -0.1, f32::NAN] {
        assert_eq!(fault(Model { eps_ratio: s(bad), ..d }), "eps_ratio must lie in (0, 1)");
    }
    assert_eq!(fault(Model { lambda: s(0.0), ..d }), "lambda must be positive");
    assert_eq!(fault(Model { alpha: s(-1.0), ..d }), "alpha must be positive");
    assert_eq!(fault(Model { eta: s(-0.1), ..d }), "eta must be non-negative");
    for bad in [0.0, 0.51] {
        assert_eq!(
            fault(Model { cfl: s(bad), ..d }),
            "cfl must lie in (0, 0.5]; see docs/NUMERICS.md"
        );
    }
    assert!(Model { cfl: s(0.5), ..d }.validate().is_ok());
    assert_eq!(
        fault(Model { seed_size: SeedSize::Critical(s(0.0)), ..d }),
        "seed factor must be positive"
    );
    assert_eq!(
        fault(Model { seed_size: SeedSize::Cells(s(-2.0)), ..d }),
        "seed radius must be positive"
    );
}

/// Equality of models is equality of numbers: zeros of either sign are the
/// same, and a NaN differs from itself.
#[test]
fn models_compare_as_numbers() {
    let d = Model::default();
    assert!(d.same(&d));
    assert!(Model { eta: s(0.0), ..d }.same(&Model { eta: s(-0.0), ..d }));
    let broken = Model { eta: s(f32::NAN), ..d };
    assert!(!broken.same(&broken));
    let cells = Model { seed_size: SeedSize::Cells(s(1.15)), ..d };
    assert!(!d.same(&cells));
}

/// The positions drawn are those of the generator, each a uniform number times
/// the length of its axis.
#[test]
fn positions_come_from_the_generator() {
    let grid = [64u32, 32, 48];
    let mut ours = Pcg64Mcg::seed_from_u64(99);
    let mut theirs = Pcg64Mcg::seed_from_u64(99);
    for _ in 0..50 {
        let pos = draw_position(&mut ours, grid);
        for axis in 0..3 {
            let expected = theirs.random::<f32>() * grid[axis] as f32;
            assert_eq!(f(pos[axis]), expected);
        }
    }
    let mut words = Pcg64Mcg::seed_from_u64(5);
    let mut numbers = Pcg64Mcg::seed_from_u64(5);
    for _ in 0..50 {
        assert_eq!(f(uniform(words.random::<u32>())), numbers.random::<f32>());
    }
}

/// A schedule worked out by hand with the same generator.
#[test]
fn schedule_follows_the_seed() {
    let grid = [40u32, 40, 40];
    let (count, radius, duration, seed) = (9usize, 4.0f32, 60.0f32, 21u64);
    let ours = make_schedule(
        NucleationMode::Exponential,
        count,
        s(radius),
        grid,
        s(duration),
        &logs(count),
        seed,
    );
    let mut rng = Pcg64Mcg::seed_from_u64(seed);
    let mut placed: Vec<[f32; 3]> = Vec::new();
    for k in 0..count {
        let mut pos = [0.0f32; 3];
        for _ in 0..64 {
            for (axis, p) in pos.iter_mut().enumerate() {
                *p = rng.random::<f32>() * grid[axis] as f32;
            }
            let clear = placed.iter().all(|q| {
                let mut sum = 0.0f32;
                for i in 0..3 {
                    let mut d = (pos[i] - q[i]).abs();
                    if d > 0.5 * grid[i] as f32 {
                        d = grid[i] as f32 - d;
                    }
                    sum += d * d;
                }
                sum.sqrt() > 2.5 * radius
            });
            if clear {
                break;
            }
        }
        placed.push(pos);
        let frac = (k as f32 + 0.5) / count as f32;
        let time = duration / 4.0 * (1.0 + frac * (4.0f32.exp() - 1.0)).ln();
        assert_eq!(f(ours[k].time), time);
        for axis in 0..3 {
            assert_eq!(f(ours[k].pos[axis]), pos[axis]);
        }
        assert_eq!(f(ours[k].radius), radius);
    }
    // Another seed, another schedule.
    let other = make_schedule(
        NucleationMode::Simultaneous,
        count,
        s(radius),
        grid,
        s(duration),
        &vec![],
        seed + 1,
    );
    assert_ne!(other[0].pos[0].bits, ours[0].pos[0].bits);
    assert!(other.iter().all(|e| f(e.time) == 0.0));
}

#[test]
fn bubbles_keep_their_distance_while_there_is_room() {
    let grid = [128u32, 128, 128];
    let radius = 6.0f32;
    let ev: Vec<BubbleEvent> = make_schedule(
        NucleationMode::Simultaneous,
        10,
        s(radius),
        grid,
        s(60.0),
        &vec![],
        3,
    );
    let n = [s(128.0), s(128.0), s(128.0)];
    for i in 0..ev.len() {
        for j in 0..i {
            assert!(f(periodic_distance(ev[i].pos, ev[j].pos, n)) > 2.5 * radius);
        }
    }
}

/// Logarithms out of order come out sorted; equal times keep their order.
#[test]
fn events_are_sorted_by_time() {
    let grid = [64u32, 64, 64];
    let late_first: Vec<Scalar> = [4.0f32, 1.0, 3.0, 1.0, 2.0].iter().map(|x| s(*x)).collect();
    let ev = make_schedule(
        NucleationMode::Exponential,
        5,
        s(2.0),
        grid,
        s(4.0),
        &late_first,
        17,
    );
    let times: Vec<f32> = ev.iter().map(|e| f(e.time)).collect();
    assert_eq!(times, vec![1.0, 1.0, 2.0, 3.0, 4.0]);
    let plain = make_schedule(
        NucleationMode::Simultaneous,
        5,
        s(2.0),
        grid,
        s(4.0),
        &vec![],
        17,
    );
    // The two bubbles of time one were drawn second and fourth.
    assert_eq!(ev[0].pos[0].bits, plain[1].pos[0].bits);
    assert_eq!(ev[1].pos[0].bits, plain[3].pos[0].bits);
}

#[test]
fn distances_wrap_around_the_box() {
    assert_eq!(f(axis_gap(s(1.0), s(63.0), s(64.0))), 2.0);
    assert_eq!(f(axis_gap(s(10.0), s(13.0), s(64.0))), 3.0);
    let n = [s(10.0), s(10.0), s(10.0)];
    let a = [s(1.0), s(1.0), s(1.0)];
    let b = [s(9.0), s(9.0), s(2.0)];
    assert_eq!(f(periodic_distance(a, b, n)), 3.0);
}

#[test]
fn time_step_is_the_courant_number() {
    for cfl in [1e-3f32, 0.2, 0.4999, 0.5] {
        let m = Model { cfl: s(cfl), ..Model::default() };
        assert!(m.validate().is_ok());
        assert_eq!(f(m.dt()), cfl);
    }
}

/// The way a bubble's time is chosen, and how many more follow, moves no bubble.
#[test]
fn schedules_of_a_seed_share_their_places() {
    let grid = [48u32, 64, 32];
    let few = make_schedule(
        NucleationMode::Simultaneous,
        4,
        s(3.0),
        grid,
        s(60.0),
        &vec![],
        9,
    );
    let many = make_schedule(
        NucleationMode::Exponential,
        12,
        s(3.0),
        grid,
        s(25.0),
        &logs(12),
        9,
    );
    for (a, b) in few.iter().zip(many.iter()) {
        for axis in 0..3 {
            assert_eq!(a.pos[axis].bits, b.pos[axis].bits);
        }
    }
    assert!(f(many[3].time) > f(many[2].time));
}

#[test]
fn a_whole_schedule_keeps_its_distance() {
    let grid = [96u32, 128, 64];
    let ev = make_schedule(
        NucleationMode::Exponential,
        12,
        s(4.0),
        grid,
        s(60.0),
        &logs(12),
        5,
    );
    let n = [s(96.0), s(128.0), s(64.0)];
    for i in 0..ev.len() {
        for j in 0..ev.len() {
            let d = f(periodic_distance(ev[i].pos, ev[j].pos, n));
            assert_eq!(d, f(periodic_distance(ev[j].pos, ev[i].pos, n)));
            if i == j {
                assert_eq!(d, 0.0);
            } else {
                assert!(d > 10.0);
            }
        }
    }
}

/// The distance is the one to the nearest of the images, and half the diagonal at
/// most.
#[test]
fn distances_are_to_the_nearest_image() {
    let n = [s(64.0), s(64.0), s(64.0)];
    let at = |x: f32| [s(x), s(0.0), s(0.0)];
    assert_eq!(f(periodic_distance(at(1.0), at(63.0), n)), 2.0);
    assert_eq!(f(periodic_distance(at(63.0), at(1.0), n)), 2.0);
    assert_eq!(f(periodic_distance(at(0.0), at(64.0), n)), 0.0);
    assert_eq!(f(periodic_distance(at(0.0), at(32.0), n)), 32.0);

    let sides = [48.0f32, 64.0, 40.0];
    let lengths = [s(sides[0]), s(sides[1]), s(sides[2])];
    let mut rng = Pcg64Mcg::seed_from_u64(4);
    for _ in 0..200 {
        let (mut a, mut b) = ([0.0f32; 3], [0.0f32; 3]);
        for axis in 0..3 {
            a[axis] = rng.random::<f32>() * sides[axis];
            b[axis] = rng.random::<f32>() * sides[axis];
        }
        let mut least = f64::INFINITY;
        for image in 0..27 {
            let mut sum = 0.0f64;
            for axis in 0..3 {
                let shift = (image / 3i32.pow(axis as u32) % 3 - 1) as f64;
                let d = a[axis] as f64 - b[axis] as f64 + shift * sides[axis] as f64;
                sum += d * d;
            }
            least = least.min(sum);
        }
        let d = f(periodic_distance(
            [s(a[0]), s(a[1]), s(a[2])],
            [s(b[0]), s(b[1]), s(b[2])],
            lengths,
        )) as f64;
        let margin = 32.0 * 2f64.powi(-23) * 64.0 * 64.0;
        assert!((d * d - least).abs() <= margin);
        let diagonal = (48.0 * 48.0 + 64.0 * 64.0 + 40.0 * 40.0) / 4.0;
        assert!(d * d <= diagonal + margin);
    }
}

/// A barrier is left up to the fourth number below one.
#[test]
fn the_symmetric_phase_is_metastable_up_to_the_largest_splitting() {
    for lambda in [1e-30f32, 3.3e-3, 0.05, 0.1, 1.7, 2.9e20] {
        for bits in [0x3f7f_fffdu32, 0x3f7f_ff80, 0x3f00_0000] {
            let m = Model {
                lambda: s(lambda),
                eps_ratio: Scalar::of_bits(bits),
                ..Model::default()
            };
            assert!(m.validate().is_ok());
            assert!(f(m.m2()) > 0.0);
            let (a, b, l) = (f(m.m2()) as f64, f(m.delta()) as f64, lambda as f64);
            let step = 2f64.powi(-23) * l;
            assert!((a - b + l).abs() <= 8.0 * step);
            assert!((a / 2.0 - b / 3.0 + l / 4.0 + f(m.eps()) as f64).abs() <= 8.0 * step);
        }
    }
}

#[test]
fn the_thin_wall_quality_is_the_rounded_quotient() {
    for lambda in [1e-28f32, 7.7e-6, 0.031, 0.5, 12.0, 4.4e25] {
        for eps_ratio in [1e-6f32, 0.0123, 0.31, 0.77, 0.999] {
            let m = Model { lambda: s(lambda), eps_ratio: s(eps_ratio), ..Model::default() };
            let q = f(m.critical_radius()) / f(m.wall_width());
            let ratio = f(m.critical_to_wall_ratio());
            assert!((q - ratio).abs() < 1e-3 * q);
            assert!(f(m.wall_width()) < f(m.critical_radius()));
        }
    }
}
