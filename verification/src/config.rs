//! Run configuration.

use vstd::prelude::*;

use crate::gpu::preprocess::Precision;
use crate::gpu::render::FieldMode;
use crate::gpu::sim;
use crate::gpu::sim::SimulationSpec;
use crate::physics;
use crate::physics::{Model, NucleationMode, SeedSize};
use crate::scalar::{Scalar, HALF, ONE, TWO, ZERO};
use crate::text;

verus! {

// ---------------------------------------------------------------------------
//  Numbers
// ---------------------------------------------------------------------------

/// Why a text is not a number.
#[derive(Clone, Copy, Debug, PartialEq, Eq, Structural)]
pub enum NumberFault {
    Empty,
    InvalidDigit,
    TooLarge,
}

impl NumberFault {
    pub open spec fn message_spec(self) -> Seq<char> {
        match self {
            NumberFault::Empty => "cannot parse integer from empty string"@,
            NumberFault::InvalidDigit => "invalid digit found in string"@,
            NumberFault::TooLarge => "number too large to fit in target type"@,
        }
    }

    pub fn message(self) -> (r: &'static str)
        ensures
            r@ == self.message_spec(),
    {
        match self {
            NumberFault::Empty => "cannot parse integer from empty string",
            NumberFault::InvalidDigit => "invalid digit found in string",
            NumberFault::TooLarge => "number too large to fit in target type",
        }
    }
}

/// The value of digits read from the left, behind digits worth `value`; the
/// first character that is no digit, or takes the value past `u32`, ends it.
pub open spec fn digits_value(s: Seq<char>, value: nat) -> Result<u32, NumberFault>
    decreases s.len(),
{
    if s.len() == 0 {
        Ok(value as u32)
    } else if !('0' <= s[0] <= '9') {
        Err(NumberFault::InvalidDigit)
    } else {
        let next = 10 * value + (s[0] as int - '0' as int) as nat;
        if next > u32::MAX {
            Err(NumberFault::TooLarge)
        } else {
            digits_value(s.skip(1), next)
        }
    }
}

/// The number a text stands for: decimal digits, with or without a plus sign.
pub open spec fn number(s: Seq<char>) -> Result<u32, NumberFault> {
    if s.len() == 0 {
        Err(NumberFault::Empty)
    } else if s[0] == '+' {
        if s.len() == 1 {
            Err(NumberFault::InvalidDigit)
        } else {
            digits_value(s.skip(1), 0)
        }
    } else {
        digits_value(s, 0)
    }
}

/// The number a text stands for.
pub fn parse_number(s: &Vec<char>) -> (r: Result<u32, NumberFault>)
    ensures
        r == number(s@),
{
    if s.len() == 0 {
        return Err(NumberFault::Empty);
    }
    let mut i: usize = 0;
    if s[0] == '+' {
        if s.len() == 1 {
            return Err(NumberFault::InvalidDigit);
        }
        i = 1;
    }
    let mut value: u32 = 0;
    assert(s@.skip(0) =~= s@);
    while i < s.len()
        invariant
            i <= s@.len(),
            number(s@) == digits_value(s@.skip(i as int), value as nat),
        decreases s.len() - i,
    {
        let c: char = s[i];
        assert(s@.skip(i as int)[0] == c);
        if c < '0' || c > '9' {
            return Err(NumberFault::InvalidDigit);
        }
        let digit: u64 = c as u64 - '0' as u64;
        let next: u64 = 10 * (value as u64) + digit;
        if next > u32::MAX as u64 {
            return Err(NumberFault::TooLarge);
        }
        value = next as u32;
        i = i + 1;
        assert(s@.skip(i - 1).skip(1) =~= s@.skip(i as int));
    }
    Ok(value)
}

/// A decimal digit.
pub open spec fn digit(d: nat) -> char {
    if d == 0 {
        '0'
    } else if d == 1 {
        '1'
    } else if d == 2 {
        '2'
    } else if d == 3 {
        '3'
    } else if d == 4 {
        '4'
    } else if d == 5 {
        '5'
    } else if d == 6 {
        '6'
    } else if d == 7 {
        '7'
    } else if d == 8 {
        '8'
    } else {
        '9'
    }
}

/// A number in decimal.
pub open spec fn decimal(n: nat) -> Seq<char>
    decreases n,
{
    if n < 10 {
        seq![digit(n)]
    } else {
        decimal(n / 10).push(digit(n % 10))
    }
}

/// A number in decimal.
fn decimal_of(n: usize) -> (r: Vec<char>)
    ensures
        r@ == decimal(n as nat),
    decreases n,
{
    let mut r: Vec<char> = if n < 10 {
        Vec::new()
    } else {
        decimal_of(n / 10)
    };
    let d: usize = n % 10;
    let c: char = if d == 0 {
        '0'
    } else if d == 1 {
        '1'
    } else if d == 2 {
        '2'
    } else if d == 3 {
        '3'
    } else if d == 4 {
        '4'
    } else if d == 5 {
        '5'
    } else if d == 6 {
        '6'
    } else if d == 7 {
        '7'
    } else if d == 8 {
        '8'
    } else {
        '9'
    };
    r.push(c);
    assert(r@ =~= decimal(n as nat));
    r
}

/// A text put together from pieces.
fn join3(a: &str, b: &Vec<char>, c: &str) -> (r: String)
    ensures
        r@ == a@ + b@ + c@,
{
    let mut out: Vec<char> = text::chars_of(a);
    text::extend(&mut out, b);
    text::extend(&mut out, &text::chars_of(c));
    text::string_of(&out)
}

// ---------------------------------------------------------------------------
//  Sizes
// ---------------------------------------------------------------------------

/// Where an `x` of either case first stands.
pub open spec fn cross(s: Seq<char>) -> int {
    let a = text::first_of(s, 'x');
    let b = text::first_of(s, 'X');
    if a < b {
        a
    } else {
        b
    }
}

/// One side of a size.
pub open spec fn extent(s: Seq<char>, what: Seq<char>) -> Result<u32, Seq<char>> {
    match number(text::trimmed(s)) {
        Err(e) => Err(what + ": "@ + e.message_spec()),
        Ok(n) => if n > 0 {
            Ok(n)
        } else {
            Err(what + " must be positive"@)
        },
    }
}

/// The size a text of the form `WIDTHxHEIGHT` stands for.
pub open spec fn size(s: Seq<char>) -> Result<(u32, u32), Seq<char>> {
    let at = cross(s);
    if at >= s.len() {
        Err("`"@ + s + "` is not a size; expected WIDTHxHEIGHT"@)
    } else {
        match extent(s.take(at), "width"@) {
            Err(e) => Err(e),
            Ok(w) => match extent(s.skip(at + 1), "height"@) {
                Err(e) => Err(e),
                Ok(h) => Ok((w, h)),
            },
        }
    }
}

/// Whether an executable result is a given one.
pub open spec fn agrees<T>(r: Result<T, String>, expected: Result<T, Seq<char>>) -> bool {
    match (r, expected) {
        (Ok(a), Ok(b)) => a == b,
        (Err(a), Err(b)) => a@ == b,
        _ => false,
    }
}

fn parse_extent(s: &Vec<char>, what: &str) -> (r: Result<u32, String>)
    ensures
        agrees(r, extent(s@, what@)),
{
    match parse_number(&text::trim(s)) {
        Err(e) => {
            let mut out: Vec<char> = text::chars_of(what);
            text::extend(&mut out, &text::chars_of(": "));
            text::extend(&mut out, &text::chars_of(e.message()));
            Err(text::string_of(&out))
        },
        Ok(n) => {
            if n > 0 {
                Ok(n)
            } else {
                let mut out: Vec<char> = text::chars_of(what);
                text::extend(&mut out, &text::chars_of(" must be positive"));
                Err(text::string_of(&out))
            }
        },
    }
}

/// Read a size of the form `WIDTHxHEIGHT`.
pub fn parse_size(s: &str) -> (r: Result<(u32, u32), String>)
    ensures
        agrees(r, size(s@)),
{
    let chars: Vec<char> = text::chars_of(s);
    let a: usize = text::find_from(&chars, 'x', 0);
    let b: usize = text::find_from(&chars, 'X', 0);
    assert(chars@.skip(0) =~= chars@);
    let at: usize = if a < b {
        a
    } else {
        b
    };
    if at >= chars.len() {
        return Err(join3("`", &chars, "` is not a size; expected WIDTHxHEIGHT"));
    }
    let left: Vec<char> = text::slice_of(&chars, 0, at);
    let right: Vec<char> = text::slice_of(&chars, at + 1, chars.len());
    assert(left@ =~= chars@.take(at as int));
    assert(right@ =~= chars@.skip(at + 1));
    let w: u32 = match parse_extent(&left, "width") {
        Ok(n) => n,
        Err(e) => {
            return Err(e);
        },
    };
    let h: u32 = match parse_extent(&right, "height") {
        Ok(n) => n,
        Err(e) => {
            return Err(e);
        },
    };
    Ok((w, h))
}

/// The numbers some texts stand for, or the first fault.
pub open spec fn numbers(parts: Seq<Seq<char>>) -> Result<Seq<u32>, NumberFault>
    decreases parts.len(),
{
    if parts.len() == 0 {
        Ok(Seq::empty())
    } else {
        match numbers(parts.drop_last()) {
            Err(e) => Err(e),
            Ok(before) => match number(text::trimmed(parts.last())) {
                Err(e) => Err(e),
                Ok(n) => Ok(before.push(n)),
            },
        }
    }
}

/// The lattice that one number, or three with commas between them, stand for.
pub open spec fn lattice(s: Seq<char>) -> Result<[u32; 3], Seq<char>> {
    match numbers(text::parts(s, ',')) {
        Err(e) => Err("`"@ + s + "` is not a lattice size: "@ + e.message_spec()),
        Ok(n) => if n.len() == 1 {
            Ok([n[0], n[0], n[0]])
        } else if n.len() == 3 {
            Ok([n[0], n[1], n[2]])
        } else {
            Err("expected 1 or 3 comma-separated sizes, got "@ + decimal(n.len()))
        },
    }
}

/// Once a part is no number, the whole is none, for the same reason.
proof fn lemma_fault_stays(parts: Seq<Seq<char>>, k: int)
    requires
        0 <= k <= parts.len(),
        numbers(parts.take(k)) is Err,
    ensures
        numbers(parts) == numbers(parts.take(k)),
    decreases parts.len() - k,
{
    if k < parts.len() {
        assert(parts.take(k + 1).drop_last() =~= parts.take(k));
        lemma_fault_stays(parts, k + 1);
    } else {
        assert(parts.take(k) =~= parts);
    }
}

/// Read a lattice size: one number for a cubic box, or three comma-separated
/// ones.
pub fn parse_grid(s: &str) -> (r: Result<[u32; 3], String>)
    ensures
        agrees(r, lattice(s@)),
{
    let chars: Vec<char> = text::chars_of(s);
    let parts: Vec<Vec<char>> = text::split(&chars, ',');
    let ghost all = text::texts(parts@);
    let mut nums: Vec<u32> = Vec::new();
    let mut i: usize = 0;
    assert(all.take(0) =~= Seq::empty());
    while i < parts.len()
        invariant
            i <= parts.len(),
            chars@ == s@,
            all == text::texts(parts@),
            all == text::parts(s@, ','),
            numbers(all.take(i as int)) matches Ok(n) && n == nums@,
        decreases parts.len() - i,
    {
        assert(all.take(i + 1).drop_last() =~= all.take(i as int));
        assert(all.take(i + 1).last() == parts@[i as int]@);
        match parse_number(&text::trim(&parts[i])) {
            Err(e) => {
                proof {
                    lemma_fault_stays(all, i + 1);
                }
                let mut out: Vec<char> = text::chars_of("`");
                text::extend(&mut out, &chars);
                text::extend(&mut out, &text::chars_of("` is not a lattice size: "));
                text::extend(&mut out, &text::chars_of(e.message()));
                return Err(text::string_of(&out));
            },
            Ok(n) => {
                nums.push(n);
            },
        }
        i = i + 1;
    }
    assert(all.take(parts.len() as int) =~= all);
    if nums.len() == 1 {
        Ok([nums[0], nums[0], nums[0]])
    } else if nums.len() == 3 {
        Ok([nums[0], nums[1], nums[2]])
    } else {
        let mut out: Vec<char> = text::chars_of("expected 1 or 3 comma-separated sizes, got ");
        text::extend(&mut out, &decimal_of(nums.len()));
        Err(text::string_of(&out))
    }
}

// ---------------------------------------------------------------------------
//  Configuration
// ---------------------------------------------------------------------------

/// Live lattice simulation of bubble nucleation and growth in a first-order
/// cosmological phase transition.
#[derive(Debug)]
pub struct Config {
    /// Lattice size.
    pub grid: [u32; 3],
    /// Quartic coupling of the scalar potential. Sets the wall thickness
    /// `l_w = 2 sqrt(2) / sqrt(lambda)` in lattice units; keep `l_w` above ~3.
    pub lambda: Scalar,
    /// Vacuum energy split, as a fraction of its maximum `lambda phi_b^4 / 12`.
    /// Small values give a tall barrier and a large critical bubble.
    pub eps_ratio: Scalar,
    /// Transition strength: latent heat over plasma radiation energy density.
    pub alpha: Scalar,
    /// Wall friction. Large values give slow deflagrations with a shock ahead
    /// of the wall; small values give fast detonations.
    pub eta: Scalar,
    /// Courant number, `dt = cfl * dx`. The hard limit is 0.5, set by the
    /// scalar field's wave equation under SSP-RK3; accuracy degrades long
    /// before that, so 0.2 is the recommended value.
    pub cfl: Scalar,
    /// Radius at which bubbles are stamped in, as a multiple of the critical
    /// radius.
    pub seed_factor: Scalar,
    /// Seed bubbles at a fixed radius in lattice cells instead, ignoring
    /// `seed_factor`.
    pub seed_radius: Option<Scalar>,
    /// Number of bubbles to seed over the course of the run.
    pub bubbles: usize,
    /// How bubbles are distributed in time.
    pub nucleation: NucleationMode,
    /// Time over which exponential nucleation completes.
    pub nucleation_duration: Scalar,
    /// Seed for bubble placement.
    pub seed: u64,
    /// Time steps advanced per rendered frame.
    pub steps_per_frame: u32,
    /// Which plasma field the volume renderer starts on.
    pub field: FieldMode,
    /// Present frames as fast as the GPU can produce them instead of waiting
    /// for vertical blank.
    pub no_vsync: bool,
    /// Run this many steps without opening a window, printing diagnostics, then
    /// exit.
    pub headless: Option<u64>,
    /// How often to report in headless mode.
    pub report_every: Option<u64>,
    /// Render one frame to this PNG and exit.
    pub screenshot: Option<String>,
    /// Resolution of the screenshot.
    pub screenshot_size: (u32, u32),
}

impl Default for Config {
    fn default() -> (r: Config)
        ensures
            r.grid == [192u32, 192, 192],
            r.model() == Model::standard(),
            r.seed_factor == Scalar::of_bits(SeedSize::DEFAULT_FACTOR),
            r.seed_radius is None,
            r.bubbles == 12,
            r.nucleation == NucleationMode::Exponential,
            r.nucleation_duration == Scalar::of_bits(SIXTY),
            r.seed == 1,
            r.steps_per_frame == 2,
            r.field == FieldMode::Kinetic,
            !r.no_vsync,
            r.headless is None,
            r.report_every is None,
            r.screenshot is None,
            r.screenshot_size == (1280u32, 960u32),
    {
        Config {
            grid: [192, 192, 192],
            lambda: Scalar::of_bits(HALF),
            eps_ratio: Scalar::of_bits(0x3e99_999a),
            alpha: Scalar::of_bits(0x3dcc_cccd),
            eta: Scalar::of_bits(0x3e99_999a),
            cfl: Scalar::of_bits(0x3e4c_cccd),
            seed_factor: Scalar::of_bits(SeedSize::DEFAULT_FACTOR),
            seed_radius: None,
            bubbles: 12,
            nucleation: NucleationMode::Exponential,
            nucleation_duration: Scalar::of_bits(SIXTY),
            seed: 1,
            steps_per_frame: 2,
            field: FieldMode::Kinetic,
            no_vsync: false,
            headless: None,
            report_every: None,
            screenshot: None,
            screenshot_size: (1280, 960),
        }
    }
}

/// `60`.
pub const SIXTY: u32 = 0x4270_0000;

/// What is wrong with a configuration.
#[derive(Debug)]
pub enum ConfigError {
    Model(String),
    NoBubbles,
    NoSteps,
    NoDuration,
    /// The wall is too thin for the lattice to resolve.
    ThinWall { lambda: Scalar, width: Scalar },
    /// The stencil needs at least eight cells along every axis.
    AxisTooSmall { axis: usize, n: u32 },
}

/// A fault by value.
pub enum ConfigFault {
    Model(Seq<char>),
    NoBubbles,
    NoSteps,
    NoDuration,
    ThinWall { lambda: Scalar, width: Scalar },
    AxisTooSmall { axis: usize, n: u32 },
}

impl View for ConfigError {
    type V = ConfigFault;

    open spec fn view(&self) -> ConfigFault {
        match *self {
            ConfigError::Model(why) => ConfigFault::Model(why@),
            ConfigError::NoBubbles => ConfigFault::NoBubbles,
            ConfigError::NoSteps => ConfigFault::NoSteps,
            ConfigError::NoDuration => ConfigFault::NoDuration,
            ConfigError::ThinWall { lambda, width } => ConfigFault::ThinWall { lambda, width },
            ConfigError::AxisTooSmall { axis, n } => ConfigFault::AxisTooSmall { axis, n },
        }
    }
}

/// What is wrong with a configuration, in the order the checks are made.
pub open spec fn config_fault(c: Config) -> Option<ConfigFault> {
    let m = c.model();
    match physics::model_fault(m) {
        Some(why) => Some(ConfigFault::Model(why)),
        None => if c.bubbles == 0 {
            Some(ConfigFault::NoBubbles)
        } else if c.steps_per_frame == 0 {
            Some(ConfigFault::NoSteps)
        } else if c.nucleation_duration.le(Scalar::of_bits(ZERO)) {
            Some(ConfigFault::NoDuration)
        } else if m.wall_width().lt(Scalar::of_bits(TWO)) {
            Some(ConfigFault::ThinWall { lambda: c.lambda, width: m.wall_width() })
        } else if c.grid[0] < 8 {
            Some(ConfigFault::AxisTooSmall { axis: 0, n: c.grid[0] })
        } else if c.grid[1] < 8 {
            Some(ConfigFault::AxisTooSmall { axis: 1, n: c.grid[1] })
        } else if c.grid[2] < 8 {
            Some(ConfigFault::AxisTooSmall { axis: 2, n: c.grid[2] })
        } else {
            None
        },
    }
}

impl Config {
    pub fn grid(&self) -> (r: [u32; 3])
        ensures
            r == self.grid,
    {
        self.grid
    }

    pub open spec fn model_spec(&self) -> Model {
        Model {
            lambda: self.lambda,
            eps_ratio: self.eps_ratio,
            alpha: self.alpha,
            eta: self.eta,
            phi_b: Scalar::of_bits(ONE),
            dx: Scalar::of_bits(ONE),
            cfl: self.cfl,
            seed_size: match self.seed_radius {
                Some(cells) => SeedSize::Cells(cells),
                None => SeedSize::Critical(self.seed_factor),
            },
        }
    }

    /// The model of this run, in units where `phi_b = dx = 1`.
    #[verifier::when_used_as_spec(model_spec)]
    pub fn model(&self) -> (r: Model)
        ensures
            r == self.model_spec(),
    {
        Model {
            lambda: self.lambda,
            eps_ratio: self.eps_ratio,
            alpha: self.alpha,
            eta: self.eta,
            phi_b: Scalar::of_bits(ONE),
            dx: Scalar::of_bits(ONE),
            cfl: self.cfl,
            seed_size: match self.seed_radius {
                Some(cells) => SeedSize::Cells(cells),
                None => SeedSize::Critical(self.seed_factor),
            },
        }
    }

    pub open spec fn sim_spec_spec(&self) -> SimulationSpec {
        SimulationSpec {
            model: self.model(),
            grid: self.grid,
            nucleation: self.nucleation,
            bubbles: self.bubbles,
            nucleation_duration: self.nucleation_duration,
            seed: self.seed,
            precision: Precision::Single,
        }
    }

    /// What to build the simulation of this run from.
    #[verifier::when_used_as_spec(sim_spec_spec)]
    pub fn sim_spec(&self) -> (r: SimulationSpec)
        ensures
            r == self.sim_spec_spec(),
    {
        SimulationSpec {
            model: self.model(),
            grid: self.grid,
            nucleation: self.nucleation,
            bubbles: self.bubbles,
            nucleation_duration: self.nucleation_duration,
            seed: self.seed,
            precision: Precision::Single,
        }
    }

    /// Whether a run can be made of this configuration.
    pub fn validate(&self) -> (r: Result<(), ConfigError>)
        ensures
            match r {
                Ok(()) => config_fault(*self) is None,
                Err(why) => config_fault(*self) == Some(why@),
            },
    {
        let m: Model = self.model();
        match m.validate() {
            Ok(()) => {},
            Err(why) => {
                return Err(ConfigError::Model(why));
            },
        }
        if self.bubbles == 0 {
            return Err(ConfigError::NoBubbles);
        }
        if self.steps_per_frame == 0 {
            return Err(ConfigError::NoSteps);
        }
        if self.nucleation_duration.le(Scalar::of_bits(ZERO)) {
            return Err(ConfigError::NoDuration);
        }
        if m.wall_width().lt(Scalar::of_bits(TWO)) {
            return Err(ConfigError::ThinWall { lambda: self.lambda, width: m.wall_width() });
        }
        let mut axis: usize = 0;
        while axis < 3
            invariant
                axis <= 3,
                forall|a: int| 0 <= a < axis ==> #[trigger] self.grid[a] >= 8,
                m == self.model(),
                physics::model_fault(m) is None,
                self.bubbles != 0,
                self.steps_per_frame != 0,
                !self.nucleation_duration.le(Scalar::of_bits(ZERO)),
                !m.wall_width().lt(Scalar::of_bits(TWO)),
            decreases 3 - axis,
        {
            if self.grid[axis] < 8 {
                return Err(ConfigError::AxisTooSmall { axis, n: self.grid[axis] });
            }
            axis = axis + 1;
        }
        Ok(())
    }
}

// ---------------------------------------------------------------------------
//  What holds of every configuration
// ---------------------------------------------------------------------------

/// A configuration that is accepted makes a simulation on every device whose
/// storage bindings are large enough.
pub proof fn law_accepted_configuration_runs(config: Config, max_storage_binding: u64)
    requires
        config_fault(config) is None,
        16 * sim::cells(config.grid) <= max_storage_binding,
    ensures
        physics::model_fault(config.sim_spec().model) is None,
        sim::fit_fault(config.sim_spec().grid, max_storage_binding) is None,
        config.sim_spec().precision == Precision::Single,
{
}

proof fn lemma_digits_concat(a: Seq<char>, b: Seq<char>, value: nat)
    requires
        value <= u32::MAX,
    ensures
        digits_value(a + b, value) == match digits_value(a, value) {
            Ok(n) => digits_value(b, n as nat),
            Err(e) => Err(e),
        },
    decreases a.len(),
{
    if a.len() == 0 {
        assert(a + b =~= b);
    } else {
        assert((a + b)[0] == a[0]);
        assert((a + b).skip(1) =~= a.skip(1) + b);
        if '0' <= a[0] <= '9' {
            let next = 10 * value + (a[0] as int - '0' as int) as nat;
            if next <= u32::MAX {
                lemma_digits_concat(a.skip(1), b, next);
            }
        }
    }
}

proof fn lemma_decimal(n: nat)
    requires
        n <= u32::MAX,
    ensures
        digits_value(decimal(n), 0) == Ok::<u32, NumberFault>(n as u32),
        decimal(n).len() > 0,
        forall|i: int| 0 <= i < decimal(n).len() ==> '0' <= #[trigger] decimal(n)[i] <= '9',
    decreases n,
{
    reveal_with_fuel(digits_value, 2);
    let last = seq![digit(n % 10)];
    assert(last.skip(1) =~= Seq::empty());
    if n < 10 {
        assert(decimal(n) =~= last);
        assert(decimal(n).skip(1) =~= Seq::empty());
    } else {
        lemma_decimal(n / 10);
        lemma_digits_concat(decimal(n / 10), last, 0);
        assert(decimal(n) =~= decimal(n / 10) + last);
    }
}

proof fn lemma_digits_not_blank(s: Seq<char>)
    requires
        s.len() > 0,
        forall|i: int| 0 <= i < s.len() ==> '0' <= #[trigger] s[i] <= '9',
    ensures
        text::trimmed(s) == s,
        text::first_of(s, 'x') == s.len(),
        text::first_of(s, 'X') == s.len(),
{
    assert('0' <= s[0] <= '9');
    assert('0' <= s[s.len() - 1] <= '9');
    text::lemma_first_of(s, 'x', s.len() as int);
    text::lemma_first_of(s, 'X', s.len() as int);
}

/// A number is read back from its decimal digits.
pub proof fn law_numbers_are_read_back(n: u32)
    ensures
        number(decimal(n as nat)) == Ok::<u32, NumberFault>(n),
{
    lemma_decimal(n as nat);
    assert('0' <= decimal(n as nat)[0] <= '9');
}

/// A size is read back from its two sides with an `x` of either case between
/// them, and only a side of no pixels is refused.
pub proof fn law_sizes_are_read_back(w: u32, h: u32, cross_mark: char)
    requires
        cross_mark == 'x' || cross_mark == 'X',
        w > 0,
        h > 0,
    ensures
        size(decimal(w as nat).push(cross_mark) + decimal(h as nat)) == Ok::<
            (u32, u32),
            Seq<char>,
        >((w, h)),
{
    let a = decimal(w as nat);
    let b = decimal(h as nat);
    let s = a.push(cross_mark) + b;
    lemma_decimal(w as nat);
    lemma_decimal(h as nat);
    lemma_digits_not_blank(a);
    lemma_digits_not_blank(b);
    law_numbers_are_read_back(w);
    law_numbers_are_read_back(h);
    let at = a.len() as int;
    assert(s.take(at) =~= a);
    assert(s.skip(at + 1) =~= b);
    assert forall|j: int| 0 <= j < at implies #[trigger] s[j] != 'x' && s[j] != 'X' by {
        assert(s[j] == a[j]);
    }
    assert(s[at] == cross_mark);
    text::lemma_first_of(s, cross_mark, at);
    text::lemma_first_of_range(s, 'x');
    text::lemma_first_of_range(s, 'X');
    let other = if cross_mark == 'x' {
        'X'
    } else {
        'x'
    };
    if text::first_of(s, other) < at {
        assert(s[text::first_of(s, other)] == other);
    }
}

} // verus!
