use bubble_simulation::config::{parse_grid, parse_size, Config, ConfigError};
use bubble_simulation::gpu::preprocess::Precision;
use bubble_simulation::gpu::render::FieldMode;
use bubble_simulation::physics::{Model, NucleationMode, SeedSize};
use bubble_simulation::scalar::Scalar;

fn s(x: f32) -> Scalar {
    Scalar::of_bits(x.to_bits())
}

fn f(x: Scalar) -> f32 {
    f32::from_bits(x.bits)
}

#[test]
fn size_parsing() {
    assert_eq!(parse_size("1920x1080").unwrap(), (1920, 1080));
    assert_eq!(parse_size("800X600").unwrap(), (800, 600));
    assert!(parse_size("1920").is_err());
    assert!(parse_size("0x600").is_err());
}

#[test]
fn grid_accepts_one_or_three_values() {
    assert_eq!(parse_grid("192").unwrap(), [192, 192, 192]);
    assert_eq!(parse_grid("256,128, 64").unwrap(), [256, 128, 64]);
    assert!(parse_grid("1,2").is_err());
    assert!(parse_grid("abc").is_err());
}

#[test]
fn defaults_are_valid_and_well_resolved() {
    let c = Config::default();
    c.validate().unwrap();
    let m = c.model();
    assert!(f(m.wall_width()) >= 3.0, "wall is {} cells", f(m.wall_width()));
    assert!(
        f(m.critical_radius()) > f(m.wall_width()),
        "the thin-wall picture needs R_c > l_w"
    );
}

#[test]
fn an_unresolvable_wall_is_rejected() {
    let mut c = Config::default();
    c.lambda = s(50.0);
    assert!(c.validate().is_err());
}

/// What the standard library makes of the same text.
fn by_std(text: &str) -> Result<u32, String> {
    text.parse::<u32>().map_err(|e| format!("{e}"))
}

#[test]
fn numbers_are_read_as_the_standard_library_does() {
    for text in [
        "", "+", "-", "0", "7", "007", "+12", "-12", "4294967295", "4294967296", "42949672960",
        "99999999999999999999", "4294967296x", "42949672959x", "1_000", "1 2", "\u{661}", "x",
        "12345678", "123456789a", "1e3", "++1",
    ] {
        let ours = parse_grid(text);
        match by_std(text.trim()) {
            Ok(n) => assert_eq!(ours.unwrap(), [n, n, n]),
            Err(e) => assert_eq!(ours.unwrap_err(), format!("`{text}` is not a lattice size: {e}")),
        }
    }
}

#[test]
fn size_faults_are_named() {
    let fault = |t: &str| parse_size(t).unwrap_err();
    assert_eq!(fault("1920"), "`1920` is not a size; expected WIDTHxHEIGHT");
    assert_eq!(fault(""), "`` is not a size; expected WIDTHxHEIGHT");
    assert_eq!(fault("0x600"), "width must be positive");
    assert_eq!(fault("600x0"), "height must be positive");
    assert_eq!(fault("x5"), "width: cannot parse integer from empty string");
    assert_eq!(fault("5x"), "height: cannot parse integer from empty string");
    assert_eq!(fault("5xx"), "height: invalid digit found in string");
    assert_eq!(fault("4294967296x1"), "width: number too large to fit in target type");
    assert_eq!(parse_size(" 5 X\t6 ").unwrap(), (5, 6));
    assert_eq!(parse_size("\u{a0}5\u{2003}x6").unwrap(), (5, 6));
}

#[test]
fn grid_faults_are_named() {
    assert_eq!(
        parse_grid("1,2").unwrap_err(),
        "expected 1 or 3 comma-separated sizes, got 2"
    );
    assert_eq!(
        parse_grid("1,1,1,1,1,1,1,1,1,1,1,1").unwrap_err(),
        "expected 1 or 3 comma-separated sizes, got 12"
    );
    assert_eq!(
        parse_grid("8,a,99999999999").unwrap_err(),
        "`8,a,99999999999` is not a lattice size: invalid digit found in string"
    );
    assert_eq!(
        parse_grid("8,,8").unwrap_err(),
        "`8,,8` is not a lattice size: cannot parse integer from empty string"
    );
}

#[test]
fn sizes_are_read_back() {
    for (w, h) in [(1u32, 1u32), (1280, 960), (4294967295, 10), (100, 2_000_000_000)] {
        assert_eq!(parse_size(&format!("{w}x{h}")).unwrap(), (w, h));
        assert_eq!(parse_size(&format!("{w}X{h}")).unwrap(), (w, h));
        assert_eq!(parse_grid(&format!("{w}")).unwrap(), [w, w, w]);
    }
}

#[test]
fn defaults_are_the_documented_ones() {
    let c = Config::default();
    assert_eq!(c.grid(), [192, 192, 192]);
    assert_eq!(f(c.lambda), 0.5);
    assert_eq!(f(c.eps_ratio), 0.3);
    assert_eq!(f(c.alpha), 0.1);
    assert_eq!(f(c.eta), 0.3);
    assert_eq!(f(c.cfl), 0.2);
    assert_eq!(f(c.seed_factor), 1.15);
    assert!(c.seed_radius.is_none());
    assert_eq!(c.bubbles, 12);
    assert_eq!(c.nucleation, NucleationMode::Exponential);
    assert_eq!(f(c.nucleation_duration), 60.0);
    assert_eq!(c.seed, 1);
    assert_eq!(c.steps_per_frame, 2);
    assert_eq!(c.field, FieldMode::Kinetic);
    assert!(!c.no_vsync);
    assert!(c.headless.is_none() && c.report_every.is_none() && c.screenshot.is_none());
    assert_eq!(c.screenshot_size, (1280, 960));
    assert!(c.model().same(&Model::default()));
}

#[test]
fn every_configuration_fault_is_named() {
    let with = |edit: fn(&mut Config)| {
        let mut c = Config::default();
        edit(&mut c);
        c.validate()
    };
    assert!(matches!(with(|c| c.cfl = s(0.9)), Err(ConfigError::Model(_))));
    assert!(matches!(with(|c| c.bubbles = 0), Err(ConfigError::NoBubbles)));
    assert!(matches!(with(|c| c.steps_per_frame = 0), Err(ConfigError::NoSteps)));
    assert!(matches!(with(|c| c.nucleation_duration = s(0.0)), Err(ConfigError::NoDuration)));
    assert!(matches!(with(|c| c.lambda = s(2.1)), Err(ConfigError::ThinWall { .. })));
    assert!(with(|c| c.lambda = s(2.0)).is_ok());
    for axis in 0..3usize {
        let mut c = Config::default();
        c.grid[axis] = 7;
        match c.validate() {
            Err(ConfigError::AxisTooSmall { axis: a, n }) => assert_eq!((a, n), (axis, 7)),
            other => panic!("{other:?}"),
        }
    }
}

#[test]
fn spec_is_the_configuration() {
    let mut c = Config::default();
    c.seed_radius = Some(s(7.5));
    c.grid = [16, 24, 32];
    c.seed = 42;
    let spec = c.sim_spec();
    assert_eq!(spec.grid, [16, 24, 32]);
    assert_eq!(spec.seed, 42);
    assert_eq!(spec.bubbles, 12);
    assert_eq!(spec.precision, Precision::Single);
    assert_eq!(spec.model.seed_size, SeedSize::Cells(s(7.5)));
    assert_eq!(f(spec.nucleation_duration), 60.0);
}
