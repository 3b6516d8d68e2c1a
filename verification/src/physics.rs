//! Physical model: parameter derivation and the bubble nucleation schedule.
//!
//! Units are natural (`c = hbar = k_B = 1`) and lengths are measured in lattice
//! spacings.  Three choices fix the remaining freedom:
//!
//!   * `phi_b = 1` defines the unit of the scalar field,
//!   * `T_ref = 1` defines the unit of temperature, which fixes the radiation
//!     constant `a` through `e_ref = a T_ref^4`,
//!   * `dx = 1` defines the unit of length (and hence of time, since `c = 1`).
//!
//! Everything the user tunes is therefore dimensionless.

use rand_pcg::Pcg64Mcg;
use vstd::arithmetic::power2::*;
use vstd::prelude::*;

use crate::random;
use crate::rounding;
use crate::scalar;
use crate::scalar::{
    Scalar, FOUR, HALF, ONE, ONE_AND_A_HALF, QUARTER, SIX, THREE, TWELVE, TWO, TWO_AND_A_HALF, ZERO,
};

verus! {

/// The square root of two, `1.41421354`.
pub const SQRT_2: u32 = 0x3fb5_04f3;

/// The least friction the force balance divides by, `1e-6`.
pub const MIN_FRICTION: u32 = 0x3586_37bd;

/// How large a bubble is when it is stamped into the lattice.
///
/// The physically meaningful scale is the critical radius `R_c`: a bubble
/// below it collapses under its own surface tension, a bubble above it grows.
/// A genuine thermal fluctuation nucleates *at* `R_c`, so the closer to 1 the
/// factor is, the more faithful the seeding.
#[derive(Clone, Copy, Debug, PartialEq, Eq, Structural)]
pub enum SeedSize {
    /// A multiple of the critical radius.  Tracks `R_c`, so the seeding stays
    /// physically meaningful when the potential is retuned live.
    Critical(Scalar),
    /// A fixed number of lattice cells, regardless of `R_c`.
    Cells(Scalar),
}

impl SeedSize {
    /// Just above critical: the smallest seed that reliably grows rather than
    /// collapsing, `1.15`.
    pub const DEFAULT_FACTOR: u32 = 0x3f93_3333;

    /// Whether two sizes are equal as numbers.
    pub open spec fn same_spec(self, other: SeedSize) -> bool {
        match (self, other) {
            (SeedSize::Critical(a), SeedSize::Critical(b)) => a.same(b),
            (SeedSize::Cells(a), SeedSize::Cells(b)) => a.same(b),
            _ => false,
        }
    }

    #[verifier::when_used_as_spec(same_spec)]
    pub fn same(self, other: SeedSize) -> (r: bool)
        ensures
            r == self.same_spec(other),
    {
        match (self, other) {
            (SeedSize::Critical(a), SeedSize::Critical(b)) => a.same(b),
            (SeedSize::Cells(a), SeedSize::Cells(b)) => a.same(b),
            _ => false,
        }
    }
}

#[derive(Clone, Copy, Debug, PartialEq, Eq, Structural)]
pub struct Model {
    /// Quartic coupling of the scalar potential.  Sets the wall thickness
    /// (`l_w = 2 sqrt(2) / (phi_b sqrt(lambda))`) and the surface tension.
    pub lambda: Scalar,
    /// Vacuum energy difference as a fraction of its maximum admissible value
    /// `lambda phi_b^4 / 12`.  At `1` the barrier disappears; small values give
    /// a strongly first-order transition with a large critical bubble.
    pub eps_ratio: Scalar,
    /// Transition strength `alpha = eps / e_ref`: latent heat relative to the
    /// radiation energy density of the plasma.
    pub alpha: Scalar,
    /// Phenomenological wall friction.  This is the one free knob that sets the
    /// terminal wall velocity, through the balance
    /// `eps ~ eta * sigma * gamma_w * v_w`.
    pub eta: Scalar,
    /// True-vacuum field value.  Fixed at 1 by the choice of field units.
    pub phi_b: Scalar,
    /// Lattice spacing.  Fixed at 1 by the choice of length units.
    pub dx: Scalar,
    /// Courant number: `dt = cfl * dx`.
    pub cfl: Scalar,
    /// Radius at which bubbles are stamped in.
    pub seed_size: SeedSize,
}

/// What is wrong with a model, in the order the checks are made.
pub open spec fn model_fault(m: Model) -> Option<Seq<char>> {
    let zero = Scalar::of_bits(ZERO);
    if !(zero.lt(m.eps_ratio) && m.eps_ratio.lt(Scalar::of_bits(ONE))) {
        Some("eps_ratio must lie in (0, 1)"@)
    } else if m.lambda.le(zero) {
        Some("lambda must be positive"@)
    } else if m.alpha.le(zero) {
        Some("alpha must be positive"@)
    } else if m.eta.lt(zero) {
        Some("eta must be non-negative"@)
    } else if m.cfl.le(zero) || Scalar::of_bits(HALF).lt(m.cfl) {
        Some("cfl must lie in (0, 0.5]; see docs/NUMERICS.md"@)
    } else {
        match m.seed_size {
            SeedSize::Critical(k) => if k.le(zero) {
                Some("seed factor must be positive"@)
            } else {
                None
            },
            SeedSize::Cells(r) => if r.le(zero) {
                Some("seed radius must be positive"@)
            } else {
                None
            },
        }
    }
}

impl Default for Model {
    fn default() -> (r: Model)
        ensures
            r == Model::standard(),
    {
        Model {
            lambda: Scalar::of_bits(HALF),
            eps_ratio: Scalar::of_bits(0x3e99_999a),
            alpha: Scalar::of_bits(0x3dcc_cccd),
            eta: Scalar::of_bits(0x3e99_999a),
            phi_b: Scalar::of_bits(ONE),
            dx: Scalar::of_bits(ONE),
            cfl: Scalar::of_bits(0x3e4c_cccd),
            seed_size: SeedSize::Critical(Scalar::of_bits(SeedSize::DEFAULT_FACTOR)),
        }
    }
}

impl Model {
    /// The parameters a run starts from: `lambda` 0.5, `eps_ratio` 0.3, `alpha`
    /// 0.1, `eta` 0.3, `cfl` 0.2 and seeds just above critical.
    pub open spec fn standard() -> Model {
        Model {
            lambda: Scalar::of_bits(HALF),
            eps_ratio: Scalar::of_bits(0x3e99_999a),
            alpha: Scalar::of_bits(0x3dcc_cccd),
            eta: Scalar::of_bits(0x3e99_999a),
            phi_b: Scalar::of_bits(ONE),
            dx: Scalar::of_bits(ONE),
            cfl: Scalar::of_bits(0x3e4c_cccd),
            seed_size: SeedSize::Critical(Scalar::of_bits(SeedSize::DEFAULT_FACTOR)),
        }
    }

    pub open spec fn same_spec(&self, other: &Model) -> bool {
        &&& self.lambda.same(other.lambda)
        &&& self.eps_ratio.same(other.eps_ratio)
        &&& self.alpha.same(other.alpha)
        &&& self.eta.same(other.eta)
        &&& self.phi_b.same(other.phi_b)
        &&& self.dx.same(other.dx)
        &&& self.cfl.same(other.cfl)
        &&& self.seed_size.same(other.seed_size)
    }

    pub open spec fn eps_spec(&self) -> Scalar {
        self.eps_ratio.times(self.lambda).times(self.phi_b.fourth()).over(Scalar::of_bits(TWELVE))
    }

    pub open spec fn m2_spec(&self) -> Scalar {
        Scalar::of_bits(HALF).times(self.lambda).times(self.phi_b.squared()).minus(
            Scalar::of_bits(SIX).times(self.eps_spec()).over(self.phi_b.squared()),
        )
    }

    pub open spec fn delta_spec(&self) -> Scalar {
        Scalar::of_bits(ONE_AND_A_HALF).times(self.lambda).times(self.phi_b).minus(
            Scalar::of_bits(SIX).times(self.eps_spec()).over(self.phi_b.cubed()),
        )
    }

    pub open spec fn wall_width_spec(&self) -> Scalar {
        Scalar::of_bits(TWO).times(Scalar::of_bits(SQRT_2)).over(
            self.phi_b.times(self.lambda.sqrt()),
        )
    }

    pub open spec fn surface_tension_spec(&self) -> Scalar {
        self.lambda.over(Scalar::of_bits(TWO)).sqrt().times(self.phi_b.cubed()).over(
            Scalar::of_bits(SIX),
        )
    }

    pub open spec fn critical_radius_spec(&self) -> Scalar {
        Scalar::of_bits(TWO).times(self.surface_tension_spec()).over(self.eps_spec())
    }

    pub open spec fn e_ref_spec(&self) -> Scalar {
        self.eps_spec().over(self.alpha)
    }

    pub open spec fn t_ref_spec(&self) -> Scalar {
        Scalar::of_bits(ONE)
    }

    pub open spec fn a_rad_spec(&self) -> Scalar {
        self.e_ref_spec().over(self.t_ref_spec().fourth())
    }

    pub open spec fn dt_spec(&self) -> Scalar {
        self.cfl.times(self.dx)
    }

    pub open spec fn seed_radius_spec(&self) -> Scalar {
        let wanted = match self.seed_size {
            SeedSize::Critical(k) => k.times(self.critical_radius_spec()),
            SeedSize::Cells(r) => r,
        };
        wanted.max(Scalar::of_bits(QUARTER).times(self.dx))
    }

    pub open spec fn critical_to_wall_ratio_spec(&self) -> Scalar {
        Scalar::of_bits(ONE).over(self.eps_ratio)
    }

    /// `v = x / sqrt(1 + x^2)` solves `gamma v = x`.
    pub open spec fn estimated_wall_velocity_spec(&self) -> Scalar {
        let x = self.eps_spec().over(
            self.eta.max(Scalar::of_bits(MIN_FRICTION)).times(self.surface_tension_spec()),
        );
        x.over(Scalar::of_bits(ONE).plus(x.times(x)).sqrt())
    }

    pub open spec fn sound_speed_spec(&self) -> Scalar {
        Scalar::of_bits(ONE).over(Scalar::of_bits(THREE)).sqrt()
    }

    /// Whether two models are equal as numbers.
    #[verifier::when_used_as_spec(same_spec)]
    pub fn same(&self, other: &Model) -> (r: bool)
        ensures
            r == self.same_spec(other),
    {
        self.lambda.same(other.lambda) && self.eps_ratio.same(other.eps_ratio) && self.alpha.same(
            other.alpha,
        ) && self.eta.same(other.eta) && self.phi_b.same(other.phi_b) && self.dx.same(other.dx)
            && self.cfl.same(other.cfl) && self.seed_size.same(other.seed_size)
    }

    /// Bag constant: the vacuum energy released per unit volume converted.
    ///
    /// Constrained to `eps < lambda phi_b^4 / 12`, which is exactly the
    /// condition for the symmetric minimum to survive (`V''(0) > 0`).
    #[verifier::when_used_as_spec(eps_spec)]
    pub fn eps(&self) -> (r: Scalar)
        ensures
            r == self.eps_spec(),
    {
        self.eps_ratio.times(self.lambda).times(self.phi_b.fourth()).over(Scalar::of_bits(TWELVE))
    }

    /// `V''(0)`, the symmetric-phase curvature.
    #[verifier::when_used_as_spec(m2_spec)]
    pub fn m2(&self) -> (r: Scalar)
        ensures
            r == self.m2_spec(),
    {
        let square: Scalar = self.phi_b.squared();
        let well: Scalar = Scalar::of_bits(HALF).times(self.lambda).times(square);
        well.minus(Scalar::of_bits(SIX).times(self.eps()).over(square))
    }

    /// Cubic coefficient of the potential (the barrier).
    #[verifier::when_used_as_spec(delta_spec)]
    pub fn delta(&self) -> (r: Scalar)
        ensures
            r == self.delta_spec(),
    {
        let well: Scalar = Scalar::of_bits(ONE_AND_A_HALF).times(self.lambda).times(self.phi_b);
        well.minus(Scalar::of_bits(SIX).times(self.eps()).over(self.phi_b.cubed()))
    }

    /// Kink thickness of the planar wall, in the same units as `dx`.
    ///
    /// Exact for the degenerate potential (`eps -> 0`); the true wall is
    /// slightly thinner for `eps > 0`.  Keep this above ~3 cells or the wall
    /// will be under-resolved and will pick up lattice artefacts.
    #[verifier::when_used_as_spec(wall_width_spec)]
    pub fn wall_width(&self) -> (r: Scalar)
        ensures
            r == self.wall_width_spec(),
    {
        let top: Scalar = Scalar::of_bits(TWO).times(Scalar::of_bits(SQRT_2));
        top.over(self.phi_b.times(self.lambda.sqrt()))
    }

    /// Surface tension `sigma = integral sqrt(2V) dphi` of the degenerate wall.
    #[verifier::when_used_as_spec(surface_tension_spec)]
    pub fn surface_tension(&self) -> (r: Scalar)
        ensures
            r == self.surface_tension_spec(),
    {
        let root: Scalar = self.lambda.over(Scalar::of_bits(TWO)).sqrt();
        root.times(self.phi_b.cubed()).over(Scalar::of_bits(SIX))
    }

    /// Thin-wall critical radius `R_c = 2 sigma / eps`.  Bubbles seeded smaller
    /// than this collapse instead of growing.
    #[verifier::when_used_as_spec(critical_radius_spec)]
    pub fn critical_radius(&self) -> (r: Scalar)
        ensures
            r == self.critical_radius_spec(),
    {
        Scalar::of_bits(TWO).times(self.surface_tension()).over(self.eps())
    }

    /// Initial (symmetric-phase) fluid energy density.
    #[verifier::when_used_as_spec(e_ref_spec)]
    pub fn e_ref(&self) -> (r: Scalar)
        ensures
            r == self.e_ref_spec(),
    {
        self.eps().over(self.alpha)
    }

    /// Initial temperature: the unit of temperature.
    #[verifier::when_used_as_spec(t_ref_spec)]
    pub fn t_ref(&self) -> (r: Scalar)
        ensures
            r == self.t_ref_spec(),
    {
        Scalar::of_bits(ONE)
    }

    /// Radiation constant in `e = a T^4`, chosen so that `T_ref = 1`.
    #[verifier::when_used_as_spec(a_rad_spec)]
    pub fn a_rad(&self) -> (r: Scalar)
        ensures
            r == self.a_rad_spec(),
    {
        self.e_ref().over(self.t_ref().fourth())
    }

    /// The time step.
    #[verifier::when_used_as_spec(dt_spec)]
    pub fn dt(&self) -> (r: Scalar)
        ensures
            r == self.dt_spec(),
    {
        self.cfl.times(self.dx)
    }

    /// Radius at which bubbles are stamped in, in the same units as `dx`, and
    /// never below a quarter of a cell.
    ///
    /// The default is `1.15 R_c` rather than exactly `R_c` for a specific
    /// reason: the critical bubble is in *unstable* equilibrium, so at exactly
    /// `R_c` the direction it moves is decided by discretisation error rather
    /// than physics, and it collapses about as often as it grows.
    ///
    /// Seeding *below* `R_c` is allowed and does the physically correct thing:
    /// the bubble collapses.
    #[verifier::when_used_as_spec(seed_radius_spec)]
    pub fn seed_radius(&self) -> (r: Scalar)
        ensures
            r == self.seed_radius_spec(),
    {
        let wanted: Scalar = match self.seed_size {
            SeedSize::Critical(k) => k.times(self.critical_radius()),
            SeedSize::Cells(r) => r,
        };
        wanted.max(Scalar::of_bits(QUARTER).times(self.dx))
    }

    /// Ratio of critical radius to wall thickness.
    ///
    /// For this potential the thin-wall expressions collapse to the exact
    /// relation `R_c / l_w = 1 / eps_ratio`, independent of `lambda` and
    /// `phi_b`.  The critical bubble is therefore never *smaller* than its own
    /// wall, and `eps_ratio` alone controls how well the thin-wall picture
    /// applies.
    #[verifier::when_used_as_spec(critical_to_wall_ratio_spec)]
    pub fn critical_to_wall_ratio(&self) -> (r: Scalar)
        ensures
            r == self.critical_to_wall_ratio_spec(),
    {
        Scalar::of_bits(ONE).over(self.eps_ratio)
    }

    /// Rough terminal wall velocity from the force balance
    /// `eps = eta * sigma * gamma_w * v_w`, ignoring the back-reaction of the
    /// fluid.  Shown in the UI as an orientation aid, not as a prediction.
    #[verifier::when_used_as_spec(estimated_wall_velocity_spec)]
    pub fn estimated_wall_velocity(&self) -> (r: Scalar)
        ensures
            r == self.estimated_wall_velocity_spec(),
    {
        let friction: Scalar = self.eta.max(Scalar::of_bits(MIN_FRICTION));
        let x: Scalar = self.eps().over(friction.times(self.surface_tension()));
        x.over(Scalar::of_bits(ONE).plus(x.times(x)).sqrt())
    }

    /// Sound speed of the bag-model plasma.
    #[verifier::when_used_as_spec(sound_speed_spec)]
    pub fn sound_speed(&self) -> (r: Scalar)
        ensures
            r == self.sound_speed_spec(),
    {
        Scalar::of_bits(ONE).over(Scalar::of_bits(THREE)).sqrt()
    }

    /// Accept the parameters, or say which of them is out of range.
    pub fn validate(&self) -> (r: Result<(), String>)
        ensures
            match r {
                Ok(_) => model_fault(*self) is None,
                Err(message) => model_fault(*self) == Some(message@),
            },
    {
        let zero: Scalar = Scalar::of_bits(ZERO);
        if !(zero.lt(self.eps_ratio) && self.eps_ratio.lt(Scalar::of_bits(ONE))) {
            return Err("eps_ratio must lie in (0, 1)".to_string());
        }
        if self.lambda.le(zero) {
            return Err("lambda must be positive".to_string());
        }
        if self.alpha.le(zero) {
            return Err("alpha must be positive".to_string());
        }
        if self.eta.lt(zero) {
            return Err("eta must be non-negative".to_string());
        }
        if self.cfl.le(zero) || Scalar::of_bits(HALF).lt(self.cfl) {
            return Err("cfl must lie in (0, 0.5]; see docs/NUMERICS.md".to_string());
        }
        match self.seed_size {
            SeedSize::Critical(k) => {
                if k.le(zero) {
                    return Err("seed factor must be positive".to_string());
                }
            },
            SeedSize::Cells(r) => {
                if r.le(zero) {
                    return Err("seed radius must be positive".to_string());
                }
            },
        }
        Ok(())
    }
}

// ---------------------------------------------------------------------------
//  Nucleation
// ---------------------------------------------------------------------------

/// How bubbles are distributed in time.
#[derive(Clone, Copy, Debug, PartialEq, Eq, Structural)]
pub enum NucleationMode {
    /// All bubbles appear at t = 0.  Every bubble then has the same size at any
    /// later time, which makes the geometry of the collision network easy to
    /// read.
    Simultaneous,
    /// Nucleation rate grows as exp(beta t), the physically relevant case:
    /// early bubbles grow large before the box fills, giving a broad
    /// distribution of bubble sizes.
    Exponential,
}

/// A bubble to be stamped in.
#[derive(Clone, Copy, Debug)]
pub struct BubbleEvent {
    pub time: Scalar,
    pub pos: [Scalar; 3],
    pub radius: Scalar,
}

/// How often a position is redrawn before the last draw is kept as it is.
pub const MAX_ATTEMPTS: u32 = 64;

/// `2^-24`, the spacing of the uniform numbers.
pub const UNIFORM_STEP: u32 = 0x3380_0000;

/// A uniform number in `[0, 1)` from the leading 24 bits of a random word.
pub open spec fn uniform_spec(word: u32) -> Scalar {
    Scalar::of_bits(UNIFORM_STEP).times(Scalar::of_integer((word / 256) as u64))
}

#[verifier::when_used_as_spec(uniform_spec)]
pub fn uniform(word: u32) -> (r: Scalar)
    ensures
        r == uniform_spec(word),
{
    Scalar::of_bits(UNIFORM_STEP).times(Scalar::of_integer((word / 256) as u64))
}

/// The position that three words stand for in a box of `grid` cells.
pub open spec fn position(words: Map<nat, u32>, at: nat, grid: [u32; 3]) -> [Scalar; 3] {
    [
        uniform(words[at]).times(Scalar::of_integer(grid[0] as u64)),
        uniform(words[at + 1]).times(Scalar::of_integer(grid[1] as u64)),
        uniform(words[at + 2]).times(Scalar::of_integer(grid[2] as u64)),
    ]
}

/// Draw a position in a box of `grid` cells.
pub fn draw_position(rng: &mut Pcg64Mcg, grid: [u32; 3]) -> (r: [Scalar; 3])
    ensures
        r == position(random::upcoming_words(*old(rng)), 0, grid),
        forall|i: nat| #[trigger]
            random::upcoming_words(*final(rng))[i] == random::upcoming_words(*old(rng))[i + 3],
{
    let x: u32 = random::next_word(rng);
    let ghost after_x = random::upcoming_words(*rng);
    let y: u32 = random::next_word(rng);
    let ghost after_y = random::upcoming_words(*rng);
    let z: u32 = random::next_word(rng);
    let ghost words = random::upcoming_words(*old(rng));
    assert(after_x[0] == words[1]);
    assert(after_y[0] == after_x[1] && after_x[1] == words[2]);
    assert forall|i: nat| #[trigger]
        random::upcoming_words(*rng)[i] == random::upcoming_words(*old(rng))[i + 3] by {
        assert(after_y[i + 1] == after_x[i + 2]);
        assert(after_x[i + 2] == words[i + 3]);
    }
    [
        uniform(x).times(Scalar::of_integer(grid[0] as u64)),
        uniform(y).times(Scalar::of_integer(grid[1] as u64)),
        uniform(z).times(Scalar::of_integer(grid[2] as u64)),
    ]
}

/// Separation of two coordinates along a periodic axis of `n` cells.
pub open spec fn axis_gap_spec(a: Scalar, b: Scalar, n: Scalar) -> Scalar {
    let d = a.minus(b).abs();
    if Scalar::of_bits(HALF).times(n).lt(d) {
        n.minus(d)
    } else {
        d
    }
}

#[verifier::when_used_as_spec(axis_gap_spec)]
pub fn axis_gap(a: Scalar, b: Scalar, n: Scalar) -> (r: Scalar)
    ensures
        r == axis_gap_spec(a, b, n),
{
    let d: Scalar = a.minus(b).abs();
    if Scalar::of_bits(HALF).times(n).lt(d) {
        n.minus(d)
    } else {
        d
    }
}

pub open spec fn periodic_distance_spec(a: [Scalar; 3], b: [Scalar; 3], n: [Scalar; 3]) -> Scalar {
    Scalar::of_bits(ZERO).plus(axis_gap(a[0], b[0], n[0]).squared()).plus(
        axis_gap(a[1], b[1], n[1]).squared(),
    ).plus(axis_gap(a[2], b[2], n[2]).squared()).sqrt()
}

/// Distance of two points in a periodic box.
#[verifier::when_used_as_spec(periodic_distance_spec)]
pub fn periodic_distance(a: [Scalar; 3], b: [Scalar; 3], n: [Scalar; 3]) -> (r: Scalar)
    ensures
        r == periodic_distance_spec(a, b, n),
{
    let mut sum: Scalar = Scalar::of_bits(ZERO);
    sum = sum.plus(axis_gap(a[0], b[0], n[0]).squared());
    sum = sum.plus(axis_gap(a[1], b[1], n[1]).squared());
    sum = sum.plus(axis_gap(a[2], b[2], n[2]).squared());
    sum.sqrt()
}

/// Box lengths as numbers.
pub open spec fn box_lengths(grid: [u32; 3]) -> [Scalar; 3] {
    [
        Scalar::of_integer(grid[0] as u64),
        Scalar::of_integer(grid[1] as u64),
        Scalar::of_integer(grid[2] as u64),
    ]
}

/// Least distance kept between seeds of a given radius, `2.5` radii.
pub open spec fn min_separation(radius: Scalar) -> Scalar {
    Scalar::of_bits(TWO_AND_A_HALF).times(radius)
}

/// Whether a point keeps the least distance from every bubble placed so far.
pub open spec fn clear_of(
    pos: [Scalar; 3],
    earlier: Seq<BubbleEvent>,
    grid: [u32; 3],
    radius: Scalar,
) -> bool {
    forall|i: int|
        0 <= i < earlier.len() ==> min_separation(radius).lt(
            periodic_distance(pos, (#[trigger] earlier[i]).pos, box_lengths(grid)),
        )
}

/// The position kept for a bubble, and how many words were used in all: the
/// first draw that is clear of the earlier bubbles, else the last one allowed.
pub open spec fn placement(
    words: Map<nat, u32>,
    at: nat,
    attempt: nat,
    earlier: Seq<BubbleEvent>,
    grid: [u32; 3],
    radius: Scalar,
) -> ([Scalar; 3], nat)
    decreases MAX_ATTEMPTS - attempt,
{
    let pos = position(words, at, grid);
    if attempt + 1 >= MAX_ATTEMPTS || clear_of(pos, earlier, grid, radius) {
        (pos, at + 3)
    } else {
        placement(words, at + 3, attempt + 1, earlier, grid, radius)
    }
}

/// Growth of the nucleation rate over the duration, as a power of `e`.
pub const GROWTH: u32 = FOUR;

/// The number whose logarithm places bubble `k` of `count` in time, for a rate
/// that grows by the factor `growth` over the duration.
///
/// The cumulative count is proportional to `exp(beta t) - 1`.
pub open spec fn rate_argument_spec(k: usize, count: usize, growth: Scalar) -> Scalar {
    let frac = Scalar::of_integer(k as u64).plus(Scalar::of_bits(HALF)).over(
        Scalar::of_integer(count as u64),
    );
    Scalar::of_bits(ONE).plus(frac.times(growth.minus(Scalar::of_bits(ONE))))
}

#[verifier::when_used_as_spec(rate_argument_spec)]
pub fn rate_argument(k: usize, count: usize, growth: Scalar) -> (r: Scalar)
    ensures
        r == rate_argument_spec(k, count, growth),
{
    let frac: Scalar = Scalar::of_integer(k as u64).plus(Scalar::of_bits(HALF)).over(
        Scalar::of_integer(count as u64),
    );
    Scalar::of_bits(ONE).plus(frac.times(growth.minus(Scalar::of_bits(ONE))))
}

/// When bubble `k` appears; `logs[k]` is the natural logarithm of its
/// [`rate_argument`].
pub open spec fn event_time(
    mode: NucleationMode,
    duration: Scalar,
    logs: Seq<Scalar>,
    k: int,
) -> Scalar {
    match mode {
        NucleationMode::Simultaneous => Scalar::of_bits(ZERO),
        NucleationMode::Exponential => duration.over(Scalar::of_bits(GROWTH)).times(logs[k]),
    }
}

/// The first `k` bubbles in the order they are drawn, and the words used.
pub open spec fn drawn_events(
    mode: NucleationMode,
    k: nat,
    radius: Scalar,
    grid: [u32; 3],
    duration: Scalar,
    logs: Seq<Scalar>,
    words: Map<nat, u32>,
) -> (Seq<BubbleEvent>, nat)
    decreases k,
{
    if k == 0 {
        (Seq::empty(), 0)
    } else {
        let (earlier, at) = drawn_events(
            mode,
            (k - 1) as nat,
            radius,
            grid,
            duration,
            logs,
            words,
        );
        let (pos, next) = placement(words, at, 0, earlier, grid, radius);
        let event = BubbleEvent { time: event_time(mode, duration, logs, k - 1), pos, radius };
        (earlier.push(event), next)
    }
}

/// Put an event behind every event that is not later than it.
pub open spec fn insert_by_time(s: Seq<BubbleEvent>, e: BubbleEvent) -> Seq<BubbleEvent>
    decreases s.len(),
{
    if s.len() == 0 || !e.time.lt(s.last().time) {
        s.push(e)
    } else {
        insert_by_time(s.drop_last(), e).push(s.last())
    }
}

/// Events in order of time; events at the same time keep their order.
pub open spec fn sorted_by_time(s: Seq<BubbleEvent>) -> Seq<BubbleEvent>
    decreases s.len(),
{
    if s.len() == 0 {
        s
    } else {
        insert_by_time(sorted_by_time(s.drop_last()), s.last())
    }
}

/// The whole schedule.
pub open spec fn schedule(
    mode: NucleationMode,
    count: nat,
    radius: Scalar,
    grid: [u32; 3],
    duration: Scalar,
    logs: Seq<Scalar>,
    seed: u64,
) -> Seq<BubbleEvent> {
    sorted_by_time(
        drawn_events(
            mode,
            count,
            radius,
            grid,
            duration,
            logs,
            random::seeded_words(seed),
        ).0,
    )
}

/// Whether a point keeps the least distance from every bubble placed so far.
fn is_clear(pos: [Scalar; 3], earlier: &Vec<BubbleEvent>, grid: [u32; 3], radius: Scalar) -> (r:
    bool)
    ensures
        r == clear_of(pos, earlier@, grid, radius),
{
    let n: [Scalar; 3] = [
        Scalar::of_integer(grid[0] as u64),
        Scalar::of_integer(grid[1] as u64),
        Scalar::of_integer(grid[2] as u64),
    ];
    assert(n == box_lengths(grid));
    let least: Scalar = Scalar::of_bits(TWO_AND_A_HALF).times(radius);
    let mut i: usize = 0;
    while i < earlier.len()
        invariant
            0 <= i <= earlier.len(),
            n == box_lengths(grid),
            least == min_separation(radius),
            forall|j: int|
                0 <= j < i ==> min_separation(radius).lt(
                    periodic_distance(pos, (#[trigger] earlier@[j]).pos, box_lengths(grid)),
                ),
        decreases earlier.len() - i,
    {
        if !least.lt(periodic_distance(pos, earlier[i].pos, n)) {
            assert(!min_separation(radius).lt(
                periodic_distance(pos, earlier@[i as int].pos, box_lengths(grid)),
            ));
            return false;
        }
        i = i + 1;
    }
    true
}

/// Draw positions until one is clear of the earlier bubbles, at most
/// [`MAX_ATTEMPTS`] times.
fn place(
    rng: &mut Pcg64Mcg,
    earlier: &Vec<BubbleEvent>,
    grid: [u32; 3],
    radius: Scalar,
    words: Ghost<Map<nat, u32>>,
    at: Ghost<nat>,
) -> (r: ([Scalar; 3], Ghost<nat>))
    requires
        forall|i: nat| #[trigger] random::upcoming_words(*old(rng))[i] == words@[at@ + i],
    ensures
        (r.0, r.1@) == placement(words@, at@, 0, earlier@, grid, radius),
        forall|i: nat| #[trigger] random::upcoming_words(*final(rng))[i] == words@[r.1@ + i],
{
    let ghost mut used = at@;
    let mut attempt: u32 = 0;
    loop
        invariant
            attempt < MAX_ATTEMPTS,
            forall|i: nat| #[trigger] random::upcoming_words(*rng)[i] == words@[used + i],
            placement(words@, at@, 0, earlier@, grid, radius) == placement(
                words@,
                used,
                attempt as nat,
                earlier@,
                grid,
                radius,
            ),
        decreases MAX_ATTEMPTS - attempt,
    {
        let ghost before = random::upcoming_words(*rng);
        let pos: [Scalar; 3] = draw_position(rng, grid);
        proof {
            assert(before[0] == words@[used + 0]);
            assert(before[1] == words@[used + 1]);
            assert(before[2] == words@[used + 2]);
            assert(pos == position(words@, used, grid));
            assert forall|i: nat| #[trigger]
                random::upcoming_words(*rng)[i] == words@[(used + 3) + i] by {
                assert(before[i + 3] == words@[used + (i + 3)]);
            }
            used = used + 3;
        }
        if attempt + 1 >= MAX_ATTEMPTS || is_clear(pos, earlier, grid, radius) {
            return (pos, Ghost(used));
        }
        attempt = attempt + 1;
    }
}

/// Build the full list of nucleation events up front.
///
/// Positions are drawn uniformly at random subject to a minimum separation, so
/// that seeded bubbles do not start out already overlapping (which would look
/// like one deformed bubble rather than two colliding ones).  `logs` holds, for
/// the exponential mode, the natural logarithm of each bubble's
/// [`rate_argument`] at a growth of `e^4`.
pub fn make_schedule(
    mode: NucleationMode,
    count: usize,
    radius: Scalar,
    grid: [u32; 3],
    duration: Scalar,
    logs: &Vec<Scalar>,
    seed: u64,
) -> (r: Vec<BubbleEvent>)
    requires
        mode == NucleationMode::Exponential ==> logs.len() == count,
    ensures
        r@ == schedule(mode, count as nat, radius, grid, duration, logs@, seed),
{
    let mut rng: Pcg64Mcg = random::seeded(seed);
    let ghost words = random::seeded_words(seed);
    let ghost mut used: nat = 0;
    let mut events: Vec<BubbleEvent> = Vec::new();
    let mut k: usize = 0;
    while k < count
        invariant
            k <= count,
            mode == NucleationMode::Exponential ==> logs.len() == count,
            forall|i: nat| #[trigger] random::upcoming_words(rng)[i] == words[used + i],
            (events@, used) == drawn_events(
                mode,
                k as nat,
                radius,
                grid,
                duration,
                logs@,
                words,
            ),
        decreases count - k,
    {
        let time: Scalar = match mode {
            NucleationMode::Simultaneous => Scalar::of_bits(ZERO),
            NucleationMode::Exponential => duration.over(Scalar::of_bits(GROWTH)).times(logs[k]),
        };
        let (pos, next): ([Scalar; 3], Ghost<nat>) = place(
            &mut rng,
            &events,
            grid,
            radius,
            Ghost(words),
            Ghost(used),
        );
        events.push(BubbleEvent { time, pos, radius });
        proof {
            used = next@;
        }
        k = k + 1;
    }
    sort_by_time(&events)
}

/// Put events in order of time, keeping the order of simultaneous ones.
fn sort_by_time(events: &Vec<BubbleEvent>) -> (r: Vec<BubbleEvent>)
    ensures
        r@ == sorted_by_time(events@),
{
    let mut sorted: Vec<BubbleEvent> = Vec::new();
    let mut i: usize = 0;
    assert(events@.take(0) =~= Seq::empty());
    while i < events.len()
        invariant
            i <= events.len(),
            sorted@ == sorted_by_time(events@.take(i as int)),
        decreases events.len() - i,
    {
        let e: BubbleEvent = events[i];
        let ghost before = sorted@;
        let mut at: usize = sorted.len();
        while at > 0 && e.time.lt(sorted[at - 1].time)
            invariant
                at <= sorted.len(),
                sorted@ == before,
                forall|j: int| at <= j < before.len() ==> e.time.lt((#[trigger] before[j]).time),
            decreases at,
        {
            at = at - 1;
        }
        proof {
            lemma_insert_position(before, e, at as int);
            assert(events@.take(i + 1).drop_last() =~= events@.take(i as int));
            assert(events@.take(i + 1).last() == e);
        }
        sorted.insert(at, e);
        i = i + 1;
    }
    assert(events@.take(events.len() as int) =~= events@);
    sorted
}

/// Insertion by time is insertion at the place behind the last event that is
/// not later.
proof fn lemma_insert_position(s: Seq<BubbleEvent>, e: BubbleEvent, at: int)
    requires
        0 <= at <= s.len(),
        at > 0 ==> !e.time.lt(s[at - 1].time),
        forall|j: int| at <= j < s.len() ==> e.time.lt((#[trigger] s[j]).time),
    ensures
        insert_by_time(s, e) == s.insert(at, e),
    decreases s.len(),
{
    if at < s.len() {
        lemma_insert_position(s.drop_last(), e, at);
        assert(s.drop_last().insert(at, e).push(s.last()) =~= s.insert(at, e));
        assert(e.time.lt(s[s.len() - 1].time));
    } else {
        assert(s.push(e) =~= s.insert(at, e));
    }
}

// ---------------------------------------------------------------------------
//  What holds of every schedule
// ---------------------------------------------------------------------------

/// Whether no event comes after a later one.
pub open spec fn in_order(s: Seq<BubbleEvent>) -> bool {
    forall|i: int, j: int|
        0 <= i <= j < s.len() ==> (#[trigger] s[i]).time.le((#[trigger] s[j]).time)
}

/// Whether every time is a number.
pub open spec fn times_are_numbers(s: Seq<BubbleEvent>) -> bool {
    forall|i: int| 0 <= i < s.len() ==> !(#[trigger] s[i]).time.is_nan()
}

proof fn lemma_insert_ordered(s: Seq<BubbleEvent>, e: BubbleEvent)
    requires
        in_order(s),
        times_are_numbers(s),
        !e.time.is_nan(),
    ensures
        in_order(insert_by_time(s, e)),
        times_are_numbers(insert_by_time(s, e)),
        insert_by_time(s, e).len() == s.len() + 1,
        forall|i: int|
            0 <= i <= s.len() ==> (#[trigger] insert_by_time(s, e)[i]) == e || exists|j: int|
                0 <= j < s.len() && insert_by_time(s, e)[i] == s[j],
    decreases s.len(),
{
    let r = insert_by_time(s, e);
    if s.len() == 0 || !e.time.lt(s.last().time) {
        assert forall|i: int, j: int| 0 <= i <= j < r.len() implies (#[trigger] r[i]).time.le(
            (#[trigger] r[j]).time,
        ) by {
            if j < s.len() {
                assert(s[i].time.le(s[j].time));
            } else if i < s.len() {
                assert(s[i].time.le(s[s.len() - 1].time));
            }
        }
    } else {
        let front = s.drop_last();
        assert forall|i: int, j: int| 0 <= i <= j < front.len() implies (
        #[trigger] front[i]).time.le((#[trigger] front[j]).time) by {
            assert(s[i].time.le(s[j].time));
        }
        lemma_insert_ordered(front, e);
        let inner = insert_by_time(front, e);
        assert forall|i: int, j: int| 0 <= i <= j < r.len() implies (#[trigger] r[i]).time.le(
            (#[trigger] r[j]).time,
        ) by {
            if j < inner.len() {
                assert(inner[i].time.le(inner[j].time));
            } else if i < inner.len() {
                if inner[i] != e {
                    let k = choose|k: int| 0 <= k < front.len() && inner[i] == front[k];
                    assert(s[k].time.le(s[s.len() - 1].time));
                }
            }
        }
        assert forall|i: int| 0 <= i <= s.len() implies (#[trigger] r[i]) == e || exists|j: int|
            0 <= j < s.len() && r[i] == s[j] by {
            if i < inner.len() {
                if inner[i] != e {
                    let k = choose|k: int| 0 <= k < front.len() && inner[i] == front[k];
                    assert(r[i] == s[k]);
                }
            } else {
                assert(r[i] == s[s.len() - 1]);
            }
        }
    }
}

/// Events come out in order of time.
pub proof fn law_schedule_is_ordered(events: Seq<BubbleEvent>)
    requires
        times_are_numbers(events),
    ensures
        in_order(sorted_by_time(events)),
        sorted_by_time(events).len() == events.len(),
        times_are_numbers(sorted_by_time(events)),
    decreases events.len(),
{
    if events.len() > 0 {
        let front = events.drop_last();
        assert forall|i: int| 0 <= i < front.len() implies !(#[trigger] front[i]).time.is_nan() by {
            assert(!events[i].time.is_nan());
        }
        law_schedule_is_ordered(front);
        assert(!events[events.len() - 1].time.is_nan());
        lemma_insert_ordered(sorted_by_time(front), events.last());
    }
}

proof fn lemma_insert_keeps(s: Seq<BubbleEvent>, e: BubbleEvent)
    ensures
        insert_by_time(s, e).to_multiset() == s.to_multiset().insert(e),
    decreases s.len(),
{
    broadcast use vstd::seq_lib::group_to_multiset_ensures;

    if s.len() == 0 || !e.time.lt(s.last().time) {
    } else {
        let front = s.drop_last();
        lemma_insert_keeps(front, e);
        assert(front.push(s.last()) =~= s);
        assert(s.to_multiset() =~= front.to_multiset().insert(s.last()));
        assert(insert_by_time(s, e).to_multiset() =~= s.to_multiset().insert(e));
    }
}

/// Ordering loses no bubble and makes up none.
pub proof fn law_schedule_keeps_every_bubble(events: Seq<BubbleEvent>)
    ensures
        sorted_by_time(events).to_multiset() == events.to_multiset(),
    decreases events.len(),
{
    broadcast use vstd::seq_lib::group_to_multiset_ensures;

    if events.len() > 0 {
        let front = events.drop_last();
        law_schedule_keeps_every_bubble(front);
        lemma_insert_keeps(sorted_by_time(front), events.last());
        assert(front.push(events.last()) =~= events);
    }
}

/// Events that are in order already stay as they are: simultaneous bubbles keep
/// the order in which they were drawn.
pub proof fn law_ordered_schedule_is_kept(events: Seq<BubbleEvent>)
    requires
        in_order(events),
    ensures
        sorted_by_time(events) == events,
    decreases events.len(),
{
    if events.len() > 0 {
        let front = events.drop_last();
        assert forall|i: int, j: int| 0 <= i <= j < front.len() implies (
        #[trigger] front[i]).time.le((#[trigger] front[j]).time) by {
            assert(events[i].time.le(events[j].time));
        }
        law_ordered_schedule_is_kept(front);
        if front.len() > 0 {
            assert(events[events.len() - 2].time.le(events[events.len() - 1].time));
        }
        assert(front.push(events.last()) =~= events);
    }
}

/// A bubble keeps the minimum separation from every bubble placed before it,
/// unless every draw it was allowed came too close.
pub proof fn law_placement_keeps_distance(
    words: Map<nat, u32>,
    at: nat,
    attempt: nat,
    earlier: Seq<BubbleEvent>,
    grid: [u32; 3],
    radius: Scalar,
)
    requires
        attempt < MAX_ATTEMPTS,
    ensures
        ({
            let (pos, next) = placement(words, at, attempt, earlier, grid, radius);
            ||| clear_of(pos, earlier, grid, radius)
            ||| next == at + 3 * (MAX_ATTEMPTS - attempt) && forall|i: nat|
                attempt <= i < MAX_ATTEMPTS ==> !clear_of(
                    #[trigger] position(words, (at + 3 * (i - attempt)) as nat, grid),
                    earlier,
                    grid,
                    radius,
                )
        }),
    decreases MAX_ATTEMPTS - attempt,
{
    let pos = position(words, at, grid);
    if !clear_of(pos, earlier, grid, radius) {
        if attempt + 1 >= MAX_ATTEMPTS {
            assert forall|i: nat| attempt <= i < MAX_ATTEMPTS implies !clear_of(
                #[trigger] position(words, (at + 3 * (i - attempt)) as nat, grid),
                earlier,
                grid,
                radius,
            ) by {
                assert(i == attempt);
            }
        } else {
            law_placement_keeps_distance(words, at + 3, attempt + 1, earlier, grid, radius);
            let (last, next) = placement(words, at + 3, attempt + 1, earlier, grid, radius);
            if !clear_of(last, earlier, grid, radius) {
                assert forall|i: nat| attempt <= i < MAX_ATTEMPTS implies !clear_of(
                    #[trigger] position(words, (at + 3 * (i - attempt)) as nat, grid),
                    earlier,
                    grid,
                    radius,
                ) by {
                    if i > attempt {
                        assert(at + 3 * (i - attempt) == (at + 3) + 3 * (i - (attempt + 1)));
                        assert(!clear_of(
                            position(
                                words,
                                ((at + 3) + 3 * (i - (attempt + 1))) as nat,
                                grid,
                            ),
                            earlier,
                            grid,
                            radius,
                        ));
                    }
                }
            }
        }
    }
}

/// Whether a point lies in a box of `grid` cells.
pub open spec fn in_box(pos: [Scalar; 3], grid: [u32; 3]) -> bool {
    forall|axis: int|
        0 <= axis < 3 ==> Scalar::of_bits(ZERO).le(#[trigger] pos[axis]) && pos[axis].le(
            Scalar::of_integer(grid[axis] as u64),
        )
}

/// A uniform number times a length stays within the length.
pub proof fn lemma_coordinate_bounded(word: u32, n: u32)
    ensures
        uniform(word).is_finite(),
        uniform(word).times(Scalar::of_integer(n as u64)).is_finite(),
        Scalar::of_bits(ZERO).le(uniform(word).times(Scalar::of_integer(n as u64))),
        uniform(word).times(Scalar::of_integer(n as u64)).le(Scalar::of_integer(n as u64)),
{
    reveal(Scalar::times_spec);
    reveal(Scalar::of_integer_spec);
    let step = Scalar::of_bits(UNIFORM_STEP);
    let k = Scalar::of_integer((word / 256) as u64);
    let u = uniform(word);
    let length = Scalar::of_integer(n as u64);
    scalar::lemma_of_integer((word / 256) as u64);
    scalar::lemma_of_integer(n as u64);
    lemma2_to64();
    // The step is 2^-24, so a 24-digit integer times it is below one.
    assert(scalar::significand(UNIFORM_STEP as nat) == 0x80_0000);
    assert(scalar::exponent(UNIFORM_STEP as nat) == 102);
    rounding::lemma_pow2_sum(23, 102);
    rounding::lemma_pow2_sum(24, 125);
    assert(scalar::units(UNIFORM_STEP as nat) == pow2(125));
    assert(scalar::significand(ONE as nat) == 0x80_0000);
    assert(scalar::exponent(ONE as nat) == 126);
    rounding::lemma_pow2_sum(23, 126);
    let one = scalar::one_units();
    assert(scalar::units(ONE as nat) == one);
    let ku = scalar::units(k.magnitude());
    assert(ku == (word / 256) as nat * one);
    assert(pow2(125) * ku <= one * one) by (nonlinear_arith)
        requires
            ku == (word / 256) as nat * one,
            word / 256 < 0x100_0000,
            one == pow2(24) * pow2(125),
            pow2(24) == 0x100_0000,
            pow2(125) > 0,
    ;
    scalar::lemma_round_bounded(pow2(125) * ku, one, ONE as nat);
    // So its product with the length does not exceed the length.
    let m = u.magnitude();
    assert(m <= ONE);
    if m < ONE {
        scalar::lemma_units_order(m, ONE as nat);
    }
    let lu = scalar::units(length.magnitude());
    let um = scalar::units(m);
    assert(um * lu <= one * lu) by (nonlinear_arith)
        requires
            um <= one,
            lu >= 0,
    ;
    scalar::lemma_round_bounded(um * lu, one, length.magnitude());
    let p = u.times(length);
    if p.magnitude() < length.magnitude() {
        scalar::lemma_units_order(p.magnitude(), length.magnitude());
    }
    scalar::lemma_units_zero(p.magnitude());
}

proof fn lemma_position_in_box(words: Map<nat, u32>, at: nat, grid: [u32; 3])
    ensures
        in_box(position(words, at, grid), grid),
{
    lemma_coordinate_bounded(words[at], grid[0]);
    lemma_coordinate_bounded(words[at + 1], grid[1]);
    lemma_coordinate_bounded(words[at + 2], grid[2]);
}

proof fn lemma_placement_in_box(
    words: Map<nat, u32>,
    at: nat,
    attempt: nat,
    earlier: Seq<BubbleEvent>,
    grid: [u32; 3],
    radius: Scalar,
)
    ensures
        in_box(placement(words, at, attempt, earlier, grid, radius).0, grid),
    decreases MAX_ATTEMPTS - attempt,
{
    lemma_position_in_box(words, at, grid);
    let pos = position(words, at, grid);
    if !(attempt + 1 >= MAX_ATTEMPTS || clear_of(pos, earlier, grid, radius)) {
        lemma_placement_in_box(words, at + 3, attempt + 1, earlier, grid, radius);
    }
}

/// What the first bubbles that are drawn have in common.
pub proof fn lemma_drawn_in_box(
    mode: NucleationMode,
    k: nat,
    radius: Scalar,
    grid: [u32; 3],
    duration: Scalar,
    logs: Seq<Scalar>,
    words: Map<nat, u32>,
)
    ensures
        ({
            let events = drawn_events(mode, k, radius, grid, duration, logs, words).0;
            &&& events.len() == k
            &&& forall|i: int|
                0 <= i < k ==> in_box((#[trigger] events[i]).pos, grid) && events[i].radius
                    == radius && events[i].time == event_time(mode, duration, logs, i)
        }),
    decreases k,
{
    if k > 0 {
        lemma_drawn_in_box(mode, (k - 1) as nat, radius, grid, duration, logs, words);
        let (earlier, at) = drawn_events(
            mode,
            (k - 1) as nat,
            radius,
            grid,
            duration,
            logs,
            words,
        );
        lemma_placement_in_box(words, at, 0, earlier, grid, radius);
    }
}

/// Every bubble of a schedule lies in the box and has the seed radius, and
/// there are as many as were asked for.
pub proof fn law_bubbles_lie_in_the_box(
    mode: NucleationMode,
    count: nat,
    radius: Scalar,
    grid: [u32; 3],
    duration: Scalar,
    logs: Seq<Scalar>,
    seed: u64,
)
    ensures
        ({
            let events = schedule(mode, count, radius, grid, duration, logs, seed);
            &&& events.len() == count
            &&& forall|i: int|
                0 <= i < count ==> in_box((#[trigger] events[i]).pos, grid) && events[i].radius
                    == radius
        }),
{
    let words = random::seeded_words(seed);
    let drawn = drawn_events(mode, count, radius, grid, duration, logs, words).0;
    lemma_drawn_in_box(mode, count, radius, grid, duration, logs, words);
    let sorted = sorted_by_time(drawn);
    law_schedule_keeps_every_bubble(drawn);
    broadcast use vstd::seq_lib::group_to_multiset_ensures;

    assert(sorted.to_multiset().len() == drawn.to_multiset().len());
    assert forall|i: int| 0 <= i < count implies in_box((#[trigger] sorted[i]).pos, grid)
        && sorted[i].radius == radius by {
        assert(sorted.contains(sorted[i]));
        assert(sorted.to_multiset().count(sorted[i]) > 0);
        assert(drawn.contains(sorted[i]));
    }
}

/// A schedule is in order of time, provided the times are numbers.
pub proof fn law_bubbles_come_in_order(
    mode: NucleationMode,
    count: nat,
    radius: Scalar,
    grid: [u32; 3],
    duration: Scalar,
    logs: Seq<Scalar>,
    seed: u64,
)
    requires
        forall|k: int|
            0 <= k < count ==> !(#[trigger] event_time(mode, duration, logs, k)).is_nan(),
    ensures
        in_order(schedule(mode, count, radius, grid, duration, logs, seed)),
{
    let words = random::seeded_words(seed);
    let drawn = drawn_events(mode, count, radius, grid, duration, logs, words).0;
    lemma_drawn_in_box(mode, count, radius, grid, duration, logs, words);
    assert forall|i: int| 0 <= i < drawn.len() implies !(#[trigger] drawn[i]).time.is_nan() by {
        assert(drawn[i].time == event_time(mode, duration, logs, i));
    }
    law_schedule_is_ordered(drawn);
}

/// With unit spacing an accepted model steps in time by its Courant number,
/// which is positive and at most one half.
pub proof fn law_time_step_is_stable(m: Model)
    requires
        model_fault(m) is None,
        m.dx == Scalar::of_bits(ONE),
        !m.cfl.is_nan(),
    ensures
        m.dt() == m.cfl,
        m.dt().is_finite(),
        Scalar::of_bits(ZERO).lt(m.dt()),
        m.dt().le(Scalar::of_bits(HALF)),
{
    let mag = m.cfl.magnitude();
    if mag >= rounding::INFINITE {
        scalar::lemma_units_order(HALF as nat, mag);
        scalar::lemma_units_zero(mag);
    }
    scalar::lemma_times_one(m.cfl);
}

// ---------------------------------------------------------------------------
//  What placement depends on
// ---------------------------------------------------------------------------

/// Whether two lists of bubbles are at the same places.
pub open spec fn same_places(a: Seq<BubbleEvent>, b: Seq<BubbleEvent>) -> bool {
    &&& a.len() == b.len()
    &&& forall|i: int| 0 <= i < a.len() ==> (#[trigger] a[i]).pos == (#[trigger] b[i]).pos
}

/// Only the places of the earlier bubbles matter to a placement.
proof fn lemma_placement_by_place(
    words: Map<nat, u32>,
    at: nat,
    attempt: nat,
    a: Seq<BubbleEvent>,
    b: Seq<BubbleEvent>,
    grid: [u32; 3],
    radius: Scalar,
)
    requires
        same_places(a, b),
    ensures
        placement(words, at, attempt, a, grid, radius) == placement(
            words,
            at,
            attempt,
            b,
            grid,
            radius,
        ),
    decreases MAX_ATTEMPTS - attempt,
{
    let pos = position(words, at, grid);
    assert(clear_of(pos, a, grid, radius) == clear_of(pos, b, grid, radius)) by {
        if clear_of(pos, a, grid, radius) {
            assert forall|i: int| 0 <= i < b.len() implies min_separation(radius).lt(
                periodic_distance(pos, (#[trigger] b[i]).pos, box_lengths(grid)),
            ) by {
                assert(a[i].pos == b[i].pos);
            }
        }
        if clear_of(pos, b, grid, radius) {
            assert forall|i: int| 0 <= i < a.len() implies min_separation(radius).lt(
                periodic_distance(pos, (#[trigger] a[i]).pos, box_lengths(grid)),
            ) by {
                assert(a[i].pos == b[i].pos);
            }
        }
    }
    if !(attempt + 1 >= MAX_ATTEMPTS || clear_of(pos, a, grid, radius)) {
        lemma_placement_by_place(words, at + 3, attempt + 1, a, b, grid, radius);
    }
}

/// Bubbles are drawn one after the other: the first `m` do not depend on how
/// many follow.
proof fn lemma_drawn_prefix(
    mode: NucleationMode,
    m: nat,
    n: nat,
    radius: Scalar,
    grid: [u32; 3],
    duration: Scalar,
    logs: Seq<Scalar>,
    words: Map<nat, u32>,
)
    requires
        m <= n,
    ensures
        ({
            let few = drawn_events(mode, m, radius, grid, duration, logs, words).0;
            let many = drawn_events(mode, n, radius, grid, duration, logs, words).0;
            &&& few.len() == m
            &&& many.len() == n
            &&& few == many.take(m as int)
        }),
    decreases n,
{
    lemma_drawn_in_box(mode, m, radius, grid, duration, logs, words);
    lemma_drawn_in_box(mode, n, radius, grid, duration, logs, words);
    let few = drawn_events(mode, m, radius, grid, duration, logs, words).0;
    let many = drawn_events(mode, n, radius, grid, duration, logs, words).0;
    if m < n {
        lemma_drawn_prefix(mode, m, (n - 1) as nat, radius, grid, duration, logs, words);
        lemma_drawn_in_box(mode, (n - 1) as nat, radius, grid, duration, logs, words);
    }
    assert(few =~= many.take(m as int));
}

/// Where bubbles are drawn depends on the words, the box and the radius alone:
/// not on the mode, the duration, the logarithms, or how many bubbles follow.
pub proof fn law_places_depend_on_the_seed_alone(
    a: (NucleationMode, Scalar, Seq<Scalar>),
    m: nat,
    b: (NucleationMode, Scalar, Seq<Scalar>),
    n: nat,
    radius: Scalar,
    grid: [u32; 3],
    words: Map<nat, u32>,
)
    requires
        m <= n,
    ensures
        ({
            let few = drawn_events(a.0, m, radius, grid, a.1, a.2, words).0;
            let many = drawn_events(b.0, n, radius, grid, b.1, b.2, words).0;
            &&& few.len() == m
            &&& many.len() == n
            &&& forall|k: int| 0 <= k < m ==> (#[trigger] few[k]).pos == (#[trigger] many[k]).pos
        }),
{
    lemma_drawn_places(a, b, m, radius, grid, words);
    lemma_drawn_prefix(b.0, m, n, radius, grid, b.1, b.2, words);
    let few = drawn_events(a.0, m, radius, grid, a.1, a.2, words).0;
    let other = drawn_events(b.0, m, radius, grid, b.1, b.2, words).0;
    let many = drawn_events(b.0, n, radius, grid, b.1, b.2, words).0;
    assert forall|k: int| 0 <= k < m implies (#[trigger] few[k]).pos == (
    #[trigger] many[k]).pos by {
        assert(few[k].pos == other[k].pos);
        assert(other[k] == many[k]);
    }
}

proof fn lemma_drawn_places(
    a: (NucleationMode, Scalar, Seq<Scalar>),
    b: (NucleationMode, Scalar, Seq<Scalar>),
    m: nat,
    radius: Scalar,
    grid: [u32; 3],
    words: Map<nat, u32>,
)
    ensures
        same_places(
            drawn_events(a.0, m, radius, grid, a.1, a.2, words).0,
            drawn_events(b.0, m, radius, grid, b.1, b.2, words).0,
        ),
        drawn_events(a.0, m, radius, grid, a.1, a.2, words).0.len() == m,
        drawn_events(a.0, m, radius, grid, a.1, a.2, words).1 == drawn_events(
            b.0,
            m,
            radius,
            grid,
            b.1,
            b.2,
            words,
        ).1,
    decreases m,
{
    if m > 0 {
        let p = (m - 1) as nat;
        lemma_drawn_places(a, b, p, radius, grid, words);
        let (x, at) = drawn_events(a.0, p, radius, grid, a.1, a.2, words);
        let (y, other) = drawn_events(b.0, p, radius, grid, b.1, b.2, words);
        lemma_placement_by_place(words, at, 0, x, y, grid, radius);
        let u = drawn_events(a.0, m, radius, grid, a.1, a.2, words).0;
        let v = drawn_events(b.0, m, radius, grid, b.1, b.2, words).0;
        assert forall|i: int| 0 <= i < u.len() implies (#[trigger] u[i]).pos == (
        #[trigger] v[i]).pos by {
            if i < p {
                assert(u[i] == x[i] && v[i] == y[i]);
                assert(x[i].pos == y[i].pos);
            }
        }
    }
}

/// Logarithms as an exponential schedule has them: none is negative, and none
/// is smaller than one before it.
pub open spec fn logs_in_order(logs: Seq<Scalar>, count: nat) -> bool {
    &&& logs.len() >= count
    &&& forall|i: int, j: int|
        0 <= i <= j < count ==> Scalar::of_bits(ZERO).le(#[trigger] logs[i]) && logs[i].le(
            #[trigger] logs[j],
        ) && logs[j].is_finite()
}

/// A product with what is not negative keeps an order.
proof fn lemma_times_ordered(c: Scalar, a: Scalar, b: Scalar)
    requires
        c.is_finite(),
        !c.negative(),
        a.is_finite(),
        b.is_finite(),
        Scalar::of_bits(ZERO).le(a),
        a.le(b),
    ensures
        Scalar::of_bits(ZERO).le(c.times(a)),
        c.times(a).le(c.times(b)),
{
    reveal(Scalar::times_spec);
    scalar::lemma_units_zero(0);
    scalar::lemma_units_zero(a.magnitude());
    scalar::lemma_units_zero(b.magnitude());
    let one = scalar::one_units();
    lemma_pow2_pos(149);
    let (x, y, z) = (
        scalar::units(c.magnitude()),
        scalar::units(a.magnitude()),
        scalar::units(b.magnitude()),
    );
    assert(x * y <= x * z) by (nonlinear_arith)
        requires
            y <= z,
            x >= 0,
    ;
    rounding::lemma_round_monotone(x * y, x * z, one);
    let (p, q) = (
        rounding::round_magnitude(x * y, one),
        rounding::round_magnitude(x * z, one),
    );
    if p < q {
        scalar::lemma_units_order(p, q);
    }
    scalar::lemma_units_zero(p);
    scalar::lemma_signed(false, p);
    scalar::lemma_signed(false, q);
    if a.negative() {
        assert(x * 0 == 0);
        scalar::lemma_round_bounded(0, one, 0);
        scalar::lemma_signed(true, p);
    }
    if b.negative() {
        assert(x * 0 == 0);
        scalar::lemma_round_bounded(0, one, 0);
        scalar::lemma_signed(true, q);
    }
}

/// Bubbles are drawn in order of time, none before the start, so that a schedule
/// holds them in the order in which they were drawn.
pub proof fn law_schedule_holds_bubbles_as_drawn(
    mode: NucleationMode,
    count: nat,
    radius: Scalar,
    grid: [u32; 3],
    duration: Scalar,
    logs: Seq<Scalar>,
    seed: u64,
)
    requires
        duration.is_finite(),
        Scalar::of_bits(ZERO).lt(duration),
        mode == NucleationMode::Exponential ==> logs_in_order(logs, count),
    ensures
        ({
            let events = schedule(mode, count, radius, grid, duration, logs, seed);
            &&& events == drawn_events(
                mode,
                count,
                radius,
                grid,
                duration,
                logs,
                random::seeded_words(seed),
            ).0
            &&& in_order(events)
            &&& forall|i: int|
                0 <= i < count ==> Scalar::of_bits(ZERO).le((#[trigger] events[i]).time)
        }),
{
    let words = random::seeded_words(seed);
    let drawn = drawn_events(mode, count, radius, grid, duration, logs, words).0;
    lemma_drawn_in_box(mode, count, radius, grid, duration, logs, words);
    scalar::lemma_units_zero(0);
    let c = duration.over(Scalar::of_bits(GROWTH));
    lemma_quarter(duration);
    assert forall|i: int, j: int| 0 <= i <= j < drawn.len() implies (#[trigger] drawn[i]).time.le(
        (#[trigger] drawn[j]).time,
    ) && Scalar::of_bits(ZERO).le(drawn[i].time) by {
        assert(drawn[i].time == event_time(mode, duration, logs, i));
        assert(drawn[j].time == event_time(mode, duration, logs, j));
        if mode == NucleationMode::Exponential {
            assert(logs[i].le(logs[j]) && logs[i].le(logs[i]));
            lemma_times_ordered(c, logs[i], logs[j]);
        }
    }
    law_ordered_schedule_is_kept(drawn);
    assert forall|i: int| 0 <= i < count implies Scalar::of_bits(ZERO).le(
        (#[trigger] drawn[i]).time,
    ) by {
        assert(drawn[i].time.le(drawn[i].time));
    }
}

/// A quarter of a positive number is finite and not negative.
proof fn lemma_quarter(d: Scalar)
    requires
        d.is_finite(),
        Scalar::of_bits(ZERO).lt(d),
    ensures
        d.over(Scalar::of_bits(GROWTH)).is_finite(),
        !d.over(Scalar::of_bits(GROWTH)).negative(),
{
    scalar::lemma_units_zero(0);
    lemma2_to64();
    let four = Scalar::of_bits(GROWTH);
    assert(scalar::significand(GROWTH as nat) == 0x80_0000 && scalar::exponent(GROWTH as nat)
        == 128);
    rounding::lemma_pow2_sum(23, 128);
    rounding::lemma_pow2_sum(2, 149);
    let (u, one, f) = (
        scalar::units(d.magnitude()),
        scalar::one_units(),
        scalar::units(four.magnitude()),
    );
    assert(u * one <= f * u) by (nonlinear_arith)
        requires
            one <= f,
            u >= 0,
    ;
    scalar::lemma_over_bounded(d, four, d.magnitude());
}

/// Two schedules with the same seed, box and radius have their bubbles at the
/// same places, whatever their modes and durations, as far as the shorter goes.
pub proof fn law_schedules_share_their_places(
    a: (NucleationMode, Scalar, Seq<Scalar>),
    m: nat,
    b: (NucleationMode, Scalar, Seq<Scalar>),
    n: nat,
    radius: Scalar,
    grid: [u32; 3],
    seed: u64,
)
    requires
        m <= n,
        a.1.is_finite(),
        b.1.is_finite(),
        Scalar::of_bits(ZERO).lt(a.1),
        Scalar::of_bits(ZERO).lt(b.1),
        a.0 == NucleationMode::Exponential ==> logs_in_order(a.2, m),
        b.0 == NucleationMode::Exponential ==> logs_in_order(b.2, n),
    ensures
        ({
            let few = schedule(a.0, m, radius, grid, a.1, a.2, seed);
            let many = schedule(b.0, n, radius, grid, b.1, b.2, seed);
            &&& few.len() == m
            &&& many.len() == n
            &&& forall|k: int| 0 <= k < m ==> (#[trigger] few[k]).pos == (#[trigger] many[k]).pos
        }),
{
    law_schedule_holds_bubbles_as_drawn(a.0, m, radius, grid, a.1, a.2, seed);
    law_schedule_holds_bubbles_as_drawn(b.0, n, radius, grid, b.1, b.2, seed);
    law_places_depend_on_the_seed_alone(
        a,
        m,
        b,
        n,
        radius,
        grid,
        random::seeded_words(seed),
    );
}

// ---------------------------------------------------------------------------
//  Distances
// ---------------------------------------------------------------------------

/// The size of a difference of finite numbers.
proof fn lemma_size_of_difference(a: Scalar, b: Scalar)
    requires
        a.is_finite(),
        b.is_finite(),
    ensures
        ({
            let v = a.value() - b.value();
            let m = if v == 0 {
                0
            } else if v > 0 {
                rounding::round_magnitude(v as nat, 1)
            } else {
                rounding::round_magnitude((-v) as nat, 1)
            };
            a.minus(b).abs() == scalar::signed(false, m)
        }),
{
    scalar::lemma_signed(!b.negative(), b.magnitude());
    let v = a.value() - b.value();
    let c = b.negated();
    assert(c.is_finite() && c.value() == -b.value());
    let x = a.minus(b);
    assert(x == a.plus(c));
    if v == 0 {
        assert(x.magnitude() == 0) by {
            reveal(Scalar::plus_spec);
            scalar::lemma_signed(a.negative() && c.negative(), 0);
        }
    } else if v > 0 {
        assert(x.magnitude() == rounding::round_magnitude(v as nat, 1)) by {
            reveal(Scalar::plus_spec);
            scalar::lemma_signed(false, rounding::round_magnitude(v as nat, 1));
        }
    } else {
        assert(x.magnitude() == rounding::round_magnitude((-v) as nat, 1)) by {
            reveal(Scalar::plus_spec);
            scalar::lemma_signed(true, rounding::round_magnitude((-v) as nat, 1));
        }
    }
}

/// The size of a difference with an operand that is not finite.
proof fn lemma_size_beyond(a: Scalar, b: Scalar)
    requires
        !a.is_finite() || !b.is_finite(),
    ensures
        a.minus(b).abs() == b.minus(a).abs(),
{
    reveal(Scalar::plus_spec);
    if a.is_nan() {
        assert(a.negated().is_nan());
    } else {
        scalar::lemma_signed(!a.negative(), a.magnitude());
    }
    if b.is_nan() {
        assert(b.negated().is_nan());
    } else {
        scalar::lemma_signed(!b.negative(), b.magnitude());
    }
}

/// A difference and its opposite are as large.
proof fn lemma_gap_symmetric(a: Scalar, b: Scalar, n: Scalar)
    ensures
        axis_gap(a, b, n) == axis_gap(b, a, n),
{
    if a.is_finite() && b.is_finite() {
        lemma_size_of_difference(a, b);
        lemma_size_of_difference(b, a);
    } else {
        lemma_size_beyond(a, b);
    }
}

/// The distance does not depend on which point comes first.
pub proof fn law_distance_is_symmetric(a: [Scalar; 3], b: [Scalar; 3], n: [Scalar; 3])
    ensures
        periodic_distance(a, b, n) == periodic_distance(b, a, n),
{
    lemma_gap_symmetric(a[0], b[0], n[0]);
    lemma_gap_symmetric(a[1], b[1], n[1]);
    lemma_gap_symmetric(a[2], b[2], n[2]);
}

/// A point is at no distance from itself, in a box of no negative length.
pub proof fn law_distance_to_itself_is_zero(a: [Scalar; 3], n: [Scalar; 3])
    requires
        forall|i: int| 0 <= i < 3 ==> (#[trigger] a[i]).is_finite(),
        forall|i: int| 0 <= i < 3 ==> !(#[trigger] n[i]).negative(),
    ensures
        periodic_distance(a, a, n) == Scalar::of_bits(ZERO),
{
    let zero = Scalar::of_bits(ZERO);
    assert(a[0].is_finite() && a[1].is_finite() && a[2].is_finite());
    assert(!n[0].negative() && !n[1].negative() && !n[2].negative());
    lemma_no_gap(a[0], n[0]);
    lemma_no_gap(a[1], n[1]);
    lemma_no_gap(a[2], n[2]);
    lemma_zero_stays();
    assert(periodic_distance(a, a, n) == zero.plus(zero.squared()).plus(zero.squared()).plus(
        zero.squared(),
    ).sqrt());
}

/// Squares, sums and roots of zero are zero.
proof fn lemma_zero_stays()
    ensures
        ({
            let zero = Scalar::of_bits(ZERO);
            zero.squared() == zero && zero.plus(zero) == zero && zero.sqrt() == zero
        }),
{
    let zero = Scalar::of_bits(ZERO);
    scalar::lemma_times_zero(zero, zero);
    scalar::lemma_units_zero(0);
    assert(zero.plus(zero) == zero) by {
        reveal(Scalar::plus_spec);
    }
    assert(zero.sqrt() == zero) by {
        reveal(Scalar::sqrt_spec);
    }
}

proof fn lemma_no_gap(a: Scalar, n: Scalar)
    requires
        a.is_finite(),
        !n.negative(),
    ensures
        axis_gap(a, a, n) == Scalar::of_bits(ZERO),
{
    scalar::lemma_units_zero(0);
    lemma_size_of_difference(a, a);
    assert(a.minus(a).abs() == Scalar::of_bits(ZERO));
    let h = Scalar::of_bits(HALF).times(n);
    assert(!h.lt(Scalar::of_bits(ZERO))) by {
        reveal(Scalar::times_spec);
        let r = rounding::round_magnitude(
            scalar::units(HALF as nat) * scalar::units(n.magnitude()),
            scalar::one_units(),
        );
        scalar::lemma_signed(false, r);
        scalar::lemma_signed(false, rounding::INFINITE as nat);
    }
}

/// Whether bubbles are all further apart than the least distance.
pub open spec fn spread(s: Seq<BubbleEvent>, grid: [u32; 3], radius: Scalar) -> bool {
    forall|i: int, j: int|
        0 <= i < s.len() && 0 <= j < s.len() && i != j ==> min_separation(radius).lt(
            periodic_distance((#[trigger] s[i]).pos, (#[trigger] s[j]).pos, box_lengths(grid)),
        )
}

/// Whether one of the draws that a bubble is allowed is clear of the bubbles
/// before it.
pub open spec fn has_room(
    words: Map<nat, u32>,
    at: nat,
    earlier: Seq<BubbleEvent>,
    grid: [u32; 3],
    radius: Scalar,
) -> bool {
    exists|i: nat|
        i < MAX_ATTEMPTS && clear_of(
            #[trigger] position(words, (at + 3 * i) as nat, grid),
            earlier,
            grid,
            radius,
        )
}

/// Whether every bubble had room when its turn came.
pub open spec fn all_have_room(
    mode: NucleationMode,
    count: nat,
    radius: Scalar,
    grid: [u32; 3],
    duration: Scalar,
    logs: Seq<Scalar>,
    words: Map<nat, u32>,
) -> bool {
    forall|k: nat|
        k < count ==> {
            let (earlier, at) = #[trigger] drawn_events(
                mode,
                k,
                radius,
                grid,
                duration,
                logs,
                words,
            );
            has_room(words, at, earlier, grid, radius)
        }
}

proof fn lemma_drawn_spread(
    mode: NucleationMode,
    count: nat,
    radius: Scalar,
    grid: [u32; 3],
    duration: Scalar,
    logs: Seq<Scalar>,
    words: Map<nat, u32>,
)
    requires
        all_have_room(mode, count, radius, grid, duration, logs, words),
    ensures
        spread(drawn_events(mode, count, radius, grid, duration, logs, words).0, grid, radius),
    decreases count,
{
    if count > 0 {
        let k = (count - 1) as nat;
        lemma_drawn_spread(mode, k, radius, grid, duration, logs, words);
        let (earlier, at) = drawn_events(mode, k, radius, grid, duration, logs, words);
        assert(has_room(words, at, earlier, grid, radius));
        law_placement_keeps_distance(words, at, 0, earlier, grid, radius);
        let (pos, next) = placement(words, at, 0, earlier, grid, radius);
        let i = choose|i: nat|
            i < MAX_ATTEMPTS && clear_of(
                #[trigger] position(words, (at + 3 * i) as nat, grid),
                earlier,
                grid,
                radius,
            );
        assert(at + 3 * (i - 0) == at + 3 * i);
        let event = BubbleEvent { time: event_time(mode, duration, logs, k as int), pos, radius };
        lemma_insert_spread(earlier, event, earlier.len() as int, grid, radius);
        assert(earlier.insert(earlier.len() as int, event) =~= earlier.push(event));
    }
}

/// Where an event is put among others.
proof fn lemma_insert_somewhere(s: Seq<BubbleEvent>, e: BubbleEvent) -> (at: int)
    ensures
        0 <= at <= s.len(),
        insert_by_time(s, e) == s.insert(at, e),
    decreases s.len(),
{
    if s.len() == 0 || !e.time.lt(s.last().time) {
        assert(s.push(e) =~= s.insert(s.len() as int, e));
        s.len() as int
    } else {
        let at = lemma_insert_somewhere(s.drop_last(), e);
        assert(s.drop_last().insert(at, e).push(s.last()) =~= s.insert(at, e));
        at
    }
}

/// Whether two bubbles are further apart than the least distance.
spec fn apart(a: BubbleEvent, b: BubbleEvent, grid: [u32; 3], radius: Scalar) -> bool {
    min_separation(radius).lt(periodic_distance(a.pos, b.pos, box_lengths(grid)))
}

/// Among bubbles that are spread, another that is clear of them can stand
/// anywhere.
proof fn lemma_insert_spread(
    s: Seq<BubbleEvent>,
    e: BubbleEvent,
    at: int,
    grid: [u32; 3],
    radius: Scalar,
)
    requires
        0 <= at <= s.len(),
        spread(s, grid, radius),
        clear_of(e.pos, s, grid, radius),
    ensures
        spread(s.insert(at, e), grid, radius),
{
    let r = s.insert(at, e);
    assert forall|i: int, j: int|
        0 <= i < r.len() && 0 <= j < r.len() && i != j implies apart(
        #[trigger] r[i],
        #[trigger] r[j],
        grid,
        radius,
    ) by {
        let p = if i < at {
            i
        } else {
            i - 1
        };
        let q = if j < at {
            j
        } else {
            j - 1
        };
        if i == at {
            assert(r[j] == s[q]);
        } else if j == at {
            assert(r[i] == s[p]);
            law_distance_is_symmetric(s[p].pos, e.pos, box_lengths(grid));
        } else {
            assert(r[i] == s[p] && r[j] == s[q]);
        }
    }
    assert forall|i: int, j: int|
        0 <= i < r.len() && 0 <= j < r.len() && i != j implies min_separation(radius).lt(
        periodic_distance((#[trigger] r[i]).pos, (#[trigger] r[j]).pos, box_lengths(grid)),
    ) by {
        assert(apart(r[i], r[j], grid, radius));
    }
}

/// Ordering in time keeps the bubbles there are.
proof fn lemma_sorted_members(s: Seq<BubbleEvent>)
    ensures
        forall|i: int|
            0 <= i < sorted_by_time(s).len() ==> s.contains(#[trigger] sorted_by_time(s)[i]),
{
    law_schedule_keeps_every_bubble(s);
    broadcast use vstd::seq_lib::group_to_multiset_ensures;

    let r = sorted_by_time(s);
    assert forall|i: int| 0 <= i < r.len() implies s.contains(#[trigger] r[i]) by {
        assert(r.contains(r[i]));
        assert(r.to_multiset().count(r[i]) > 0);
    }
}

/// Ordering in time moves no bubble nearer to another.
proof fn lemma_sorted_spread(s: Seq<BubbleEvent>, grid: [u32; 3], radius: Scalar)
    requires
        spread(s, grid, radius),
    ensures
        spread(sorted_by_time(s), grid, radius),
    decreases s.len(),
{
    if s.len() > 0 {
        let front = s.drop_last();
        let e = s.last();
        assert forall|i: int, j: int|
            0 <= i < front.len() && 0 <= j < front.len() && i != j implies min_separation(
            radius,
        ).lt(
            periodic_distance(
                (#[trigger] front[i]).pos,
                (#[trigger] front[j]).pos,
                box_lengths(grid),
            ),
        ) by {
            assert(s[i] == front[i] && s[j] == front[j]);
        }
        lemma_sorted_spread(front, grid, radius);
        let t = sorted_by_time(front);
        lemma_sorted_members(front);
        assert forall|i: int| 0 <= i < t.len() implies min_separation(radius).lt(
            periodic_distance(e.pos, (#[trigger] t[i]).pos, box_lengths(grid)),
        ) by {
            let k = choose|k: int| 0 <= k < front.len() && front[k] == t[i];
            assert(s[k] == t[i] && s[s.len() - 1] == e);
        }
        let at = lemma_insert_somewhere(t, e);
        lemma_insert_spread(t, e, at, grid, radius);
    }
}

/// Where every bubble had room when its turn came, all bubbles of the schedule
/// are further apart than the least distance, so that none overlap.
pub proof fn law_schedule_keeps_distance(
    mode: NucleationMode,
    count: nat,
    radius: Scalar,
    grid: [u32; 3],
    duration: Scalar,
    logs: Seq<Scalar>,
    seed: u64,
)
    requires
        all_have_room(
            mode,
            count,
            radius,
            grid,
            duration,
            logs,
            random::seeded_words(seed),
        ),
    ensures
        spread(schedule(mode, count, radius, grid, duration, logs, seed), grid, radius),
{
    let words = random::seeded_words(seed);
    lemma_drawn_spread(mode, count, radius, grid, duration, logs, words);
    lemma_sorted_spread(
        drawn_events(mode, count, radius, grid, duration, logs, words).0,
        grid,
        radius,
    );
}

} // verus!
