use bubble_simulation::config::Config;
use bubble_simulation::gpu::sim::Diagnostics;
use bubble_simulation::headless::{plan, radius_cubed, BlowUp, Progress};
use bubble_simulation::scalar::Scalar;

fn s(x: f32) -> Scalar {
    Scalar::of_bits(x.to_bits())
}

fn f(x: Scalar) -> f32 {
    f32::from_bits(x.bits)
}

fn energy(x: f32) -> Diagnostics {
    Diagnostics { mean_energy: s(x), ..Diagnostics::default() }
}

#[test]
fn a_window_is_the_default() {
    assert_eq!(plan(&Config::default()), None);
    let headless = |n: u64| Config { headless: Some(n), ..Config::default() };
    assert_eq!(plan(&headless(1500)), Some((1500, 75)));
    assert_eq!(plan(&headless(10)), Some((10, 1)));
    assert_eq!(plan(&headless(0)), Some((0, 1)));
    let often = Config { report_every: Some(100), ..headless(1500) };
    assert_eq!(plan(&often), Some((1500, 100)));
    let shot = Config { screenshot: Some("frame.png".to_string()), ..Config::default() };
    assert_eq!(plan(&shot), Some((0, 1)));
}

fn reports(steps: u64, every: u64) -> Vec<u64> {
    let mut p = Progress::new(steps, every);
    let mut done: Vec<u64> = Vec::new();
    while let Some(chunk) = p.next_chunk() {
        assert!(chunk > 0);
        p.record(&energy(1.0), 5).unwrap();
        done.push(p.done);
    }
    done
}

#[test]
fn a_run_makes_every_step() {
    assert_eq!(reports(10, 4), vec![4, 8, 10]);
    assert_eq!(reports(8, 4), vec![4, 8]);
    assert_eq!(reports(3, 100), vec![3]);
    assert!(reports(0, 1).is_empty());
    assert!(reports(0, 0).is_empty());
}

#[test]
fn reports_come_about_twenty_times() {
    assert_eq!(reports(1500, 75).len(), 20);
    for steps in [20u64, 39, 50, 399, 400, 401, 1999] {
        let (n, every) = plan(&Config { headless: Some(steps), ..Config::default() }).unwrap();
        let count = reports(n, every).len();
        assert!((20..=39).contains(&count), "{steps} steps give {count} reports");
    }
}

#[test]
fn energy_is_compared_once_every_bubble_is_in() {
    let mut p = Progress::new(100, 10);
    assert_eq!(p.record(&energy(8.0), 2), Ok(None));
    assert_eq!(p.baseline, None);
    assert_eq!(p.record(&energy(4.0), 0), Ok(Some(s(1.0))));
    assert_eq!(p.record(&energy(5.0), 0), Ok(Some(s(1.25))));
    assert_eq!(p.baseline, Some(s(4.0)));
    assert_eq!(p.done, 30);
}

#[test]
fn a_solution_that_blows_up_ends_the_run() {
    let mut p = Progress::new(100, 10);
    p.record(&energy(8.0), 2).unwrap();
    assert_eq!(p.record(&energy(f32::NAN), 0), Err(BlowUp { step: 20 }));
    let mut p = Progress::new(100, 30);
    let fast = Diagnostics { max_velocity: s(f32::INFINITY), ..energy(1.0) };
    assert_eq!(p.record(&fast, 0), Err(BlowUp { step: 30 }));
    assert_eq!(p.baseline, None);
}

#[test]
fn the_equivalent_sphere_has_the_broken_volume() {
    let d = Diagnostics { broken_fraction: s(0.25), ..Diagnostics::default() };
    let cells = 64u64 * 64 * 64;
    let expected = 0.25 * cells as f32 * 3.0 / (4.0 * std::f32::consts::PI);
    assert_eq!(f(radius_cubed(d, cells)), expected);
}
