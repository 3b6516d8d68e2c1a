//! Volume renderer.
//!
//! One full-screen triangle; the fragment shader ray-marches the 3D texture
//! that the simulation's `vis` pass just wrote.  There is no vertex data, no
//! mesh extraction, and no transfer of lattice state to the host - the frame is
//! produced from the same device memory the solver is writing.
//!
//! Colour management: the swapchain is deliberately configured with a *non*-
//! sRGB format, so the shader emits gamma-encoded values directly (its colour
//! maps are specified in sRGB space).

use vstd::prelude::*;

use crate::scalar;
use crate::scalar::{Scalar, FOUR, HALF, ONE, ONE_AND_A_HALF, TWELVE, ZERO};

verus! {

#[derive(Clone, Copy, Debug, PartialEq, Eq, Structural)]
pub enum FieldMode {
    /// The order parameter itself: which regions have converted.
    Phi,
    /// Magnitude of the fluid three-velocity.
    Speed,
    /// Signed temperature contrast; shows compression and rarefaction.
    Temperature,
    /// Fluid kinetic energy density -- what sources gravitational waves.
    Kinetic,
}

impl Default for FieldMode {
    fn default() -> (r: FieldMode)
        ensures
            r == FieldMode::Kinetic,
    {
        FieldMode::Kinetic
    }
}

impl FieldMode {
    pub const ALL: [FieldMode; 4] = [
        FieldMode::Phi,
        FieldMode::Speed,
        FieldMode::Temperature,
        FieldMode::Kinetic,
    ];

    /// The number the shader knows a mode by.
    pub open spec fn index_spec(self) -> u32 {
        match self {
            FieldMode::Phi => 0,
            FieldMode::Speed => 1,
            FieldMode::Temperature => 2,
            FieldMode::Kinetic => 3,
        }
    }

    #[verifier::when_used_as_spec(index_spec)]
    pub fn index(self) -> (r: u32)
        ensures
            r == self.index_spec(),
    {
        match self {
            FieldMode::Phi => 0,
            FieldMode::Speed => 1,
            FieldMode::Temperature => 2,
            FieldMode::Kinetic => 3,
        }
    }

    pub open spec fn label_spec(self) -> Seq<char> {
        match self {
            FieldMode::Phi => "Order parameter  phi"@,
            FieldMode::Speed => "Fluid speed  |v|"@,
            FieldMode::Temperature => "Temperature contrast  dT/T"@,
            FieldMode::Kinetic => "Kinetic energy  w W^2 v^2"@,
        }
    }

    pub fn label(self) -> (r: &'static str)
        ensures
            r@ == self.label_spec(),
    {
        match self {
            FieldMode::Phi => "Order parameter  phi",
            FieldMode::Speed => "Fluid speed  |v|",
            FieldMode::Temperature => "Temperature contrast  dT/T",
            FieldMode::Kinetic => "Kinetic energy  w W^2 v^2",
        }
    }

    /// One half, four, fifteen and twenty.
    pub open spec fn default_gain_spec(self) -> Scalar {
        match self {
            FieldMode::Phi => Scalar::of_bits(HALF),
            FieldMode::Speed => Scalar::of_bits(FOUR),
            FieldMode::Temperature => Scalar::of_bits(0x4170_0000),
            FieldMode::Kinetic => Scalar::of_bits(0x41a0_0000),
        }
    }

    /// A gain that puts each field roughly in range for a fresh simulation.
    ///
    /// Chosen so a strong feature reaches an optical depth of a few across the
    /// box at the default `absorption`, leaving the interior legible rather
    /// than blocked out.
    #[verifier::when_used_as_spec(default_gain_spec)]
    pub fn default_gain(self) -> (r: Scalar)
        ensures
            r == self.default_gain_spec(),
    {
        match self {
            FieldMode::Phi => Scalar::of_bits(HALF),
            FieldMode::Speed => Scalar::of_bits(FOUR),
            FieldMode::Temperature => Scalar::of_bits(0x4170_0000),
            FieldMode::Kinetic => Scalar::of_bits(0x41a0_0000),
        }
    }

    pub open spec fn default_colormap_spec(self) -> usize {
        match self {
            FieldMode::Phi => 0,
            FieldMode::Temperature => 2,
            _ => 1,
        }
    }

    /// Signed fields want the signed ramp; unsigned ones do not.
    #[verifier::when_used_as_spec(default_colormap_spec)]
    pub fn default_colormap(self) -> (r: usize)
        ensures
            r == self.default_colormap_spec(),
            r < COLORMAPS.len(),
    {
        match self {
            FieldMode::Phi => 0,
            FieldMode::Temperature => 2,
            _ => 1,
        }
    }
}

pub const COLORMAPS: [&'static str; 3] = ["viridis", "inferno", "signed"];

#[derive(Clone, Copy, Debug, PartialEq, Eq, Structural)]
pub struct RenderSettings {
    pub field_mode: FieldMode,
    pub colormap: usize,
    /// Order-parameter value, in units of `phi_b`, taken to be the wall.
    pub iso_level: Scalar,
    pub wall_opacity: Scalar,
    /// Ray-march sample density.  1 means one sample per lattice cell.
    pub samples_per_cell: Scalar,
    pub exposure: Scalar,
    pub field_gain: Scalar,
    /// Optical depth across the whole box at unit field intensity.  Independent
    /// of the lattice size, so the look survives a change of the grid.
    pub absorption: Scalar,
    pub show_iso: bool,
    pub show_volume: bool,
    pub show_box: bool,
    pub background: Scalar,
    /// -1 disables the cutaway; 0/1/2 select the x/y/z half-space.
    pub clip_axis: i32,
    /// Cutaway plane position in [-1, 1] along the chosen axis.
    pub clip_pos: Scalar,
}

/// `0.55`.
pub const WALL_OPACITY: u32 = 0x3f0c_cccd;

impl RenderSettings {
    /// The settings a view starts from, showing a given field.
    pub open spec fn with_field_spec(field_mode: FieldMode) -> RenderSettings {
        RenderSettings {
            field_mode,
            colormap: field_mode.default_colormap(),
            iso_level: Scalar::of_bits(HALF),
            wall_opacity: Scalar::of_bits(WALL_OPACITY),
            samples_per_cell: Scalar::of_bits(ONE_AND_A_HALF),
            exposure: Scalar::of_bits(ONE_AND_A_HALF),
            field_gain: field_mode.default_gain(),
            absorption: Scalar::of_bits(TWELVE),
            show_iso: true,
            show_volume: true,
            show_box: true,
            background: Scalar::of_bits(ONE),
            clip_axis: (-1) as i32,
            clip_pos: Scalar::of_bits(ZERO),
        }
    }

    #[verifier::when_used_as_spec(with_field_spec)]
    pub fn with_field(field_mode: FieldMode) -> (r: RenderSettings)
        ensures
            r == RenderSettings::with_field_spec(field_mode),
    {
        RenderSettings {
            field_mode,
            colormap: field_mode.default_colormap(),
            iso_level: Scalar::of_bits(HALF),
            wall_opacity: Scalar::of_bits(WALL_OPACITY),
            samples_per_cell: Scalar::of_bits(ONE_AND_A_HALF),
            exposure: Scalar::of_bits(ONE_AND_A_HALF),
            field_gain: field_mode.default_gain(),
            absorption: Scalar::of_bits(TWELVE),
            show_iso: true,
            show_volume: true,
            show_box: true,
            background: Scalar::of_bits(ONE),
            clip_axis: -1,
            clip_pos: Scalar::of_bits(ZERO),
        }
    }
}

impl Default for RenderSettings {
    fn default() -> (r: RenderSettings)
        ensures
            r == RenderSettings::with_field(FieldMode::Kinetic),
    {
        RenderSettings::with_field(FieldMode::Kinetic)
    }
}

/// What the shader reads of the view: a four-by-four matrix and seven vectors
/// of four.
#[derive(Clone, Copy, Debug)]
pub struct ViewUniform {
    /// Column by column.
    pub inv_view_proj: [Scalar; 16],
    pub cam_pos: [Scalar; 4],
    pub box_half: [Scalar; 4],
    pub grid: [Scalar; 4],
    pub render0: [Scalar; 4],
    pub render1: [Scalar; 4],
    pub render2: [Scalar; 4],
    pub render3: [Scalar; 4],
}

impl ViewUniform {
    /// The block as numbers, in the order the shader reads them.
    pub open spec fn numbers(self) -> Seq<Scalar> {
        self.inv_view_proj@ + self.cam_pos@ + self.box_half@ + self.grid@ + self.render0@
            + self.render1@ + self.render2@ + self.render3@
    }

    /// The block word by word.
    pub fn words(&self) -> (r: Vec<u32>)
        ensures
            r@ == self.numbers().map_values(|x: Scalar| x.bits),
            r@.len() == 44,
    {
        let mut r: Vec<u32> = Vec::new();
        let mut i: usize = 0;
        assert(r@ =~= self.inv_view_proj@.take(0).map_values(|x: Scalar| x.bits));
        while i < 16
            invariant
                i <= 16,
                r@ == self.inv_view_proj@.take(i as int).map_values(|x: Scalar| x.bits),
            decreases 16 - i,
        {
            r.push(self.inv_view_proj[i].bits);
            i = i + 1;
            assert(r@ =~= self.inv_view_proj@.take(i as int).map_values(|x: Scalar| x.bits));
        }
        push_four(&mut r, self.cam_pos);
        push_four(&mut r, self.box_half);
        push_four(&mut r, self.grid);
        push_four(&mut r, self.render0);
        push_four(&mut r, self.render1);
        push_four(&mut r, self.render2);
        push_four(&mut r, self.render3);
        assert(r@ =~= self.numbers().map_values(|x: Scalar| x.bits));
        r
    }
}

fn push_four(out: &mut Vec<u32>, v: [Scalar; 4])
    ensures
        final(out)@ == old(out)@ + v@.map_values(|x: Scalar| x.bits),
{
    out.push(v[0].bits);
    out.push(v[1].bits);
    out.push(v[2].bits);
    out.push(v[3].bits);
    assert(out@ =~= old(out)@ + v@.map_values(|x: Scalar| x.bits));
}

/// The longest axis of a lattice.
pub open spec fn longest(grid: [u32; 3]) -> u32 {
    if grid[0] >= grid[1] && grid[0] >= grid[2] {
        grid[0]
    } else if grid[1] >= grid[2] {
        grid[1]
    } else {
        grid[2]
    }
}

/// A truth value as the shader reads it.
pub open spec fn flag_spec(on: bool) -> Scalar {
    if on {
        Scalar::of_bits(ONE)
    } else {
        Scalar::of_bits(ZERO)
    }
}

#[verifier::when_used_as_spec(flag_spec)]
pub fn flag(on: bool) -> (r: Scalar)
    ensures
        r == flag_spec(on),
{
    if on {
        Scalar::of_bits(ONE)
    } else {
        Scalar::of_bits(ZERO)
    }
}

/// The number nearest to an integer of either sign.
pub open spec fn of_signed_spec(n: i32) -> Scalar {
    if n < 0 {
        Scalar::of_integer((-n) as u64).negated()
    } else {
        Scalar::of_integer(n as u64)
    }
}

#[verifier::when_used_as_spec(of_signed_spec)]
pub fn of_signed(n: i32) -> (r: Scalar)
    ensures
        r == of_signed_spec(n),
{
    if n < 0 {
        Scalar::of_integer((-(n as i64)) as u64).negated()
    } else {
        Scalar::of_integer(n as u64)
    }
}

/// `0.618034`, the step of the dither from one frame to the next.
pub const DITHER: u32 = 0x3f1e_377a;

/// What the host keeps of the renderer.
#[derive(Clone, Copy, Debug)]
pub struct VolumeRenderer {
    /// Half-extents of the lattice in world units, normalised so the longest
    /// axis spans 1.0.
    pub box_half: [Scalar; 3],
    /// World-space size of one cell.
    pub cell: Scalar,
    pub grid: [u32; 3],
    pub frame: u32,
}

/// Half-extent of an axis of `n` cells in a box whose longest has `n_max`.
pub open spec fn half_extent(n: u32, n_max: u32) -> Scalar {
    Scalar::of_bits(HALF).times(Scalar::of_integer(n as u64)).over(
        Scalar::of_integer(n_max as u64),
    )
}

impl VolumeRenderer {
    /// The renderer of a lattice, at a given frame.
    pub open spec fn of_grid(grid: [u32; 3], frame: u32) -> VolumeRenderer {
        let n_max = longest(grid);
        VolumeRenderer {
            box_half: [
                half_extent(grid[0], n_max),
                half_extent(grid[1], n_max),
                half_extent(grid[2], n_max),
            ],
            cell: Scalar::of_bits(ONE).over(Scalar::of_integer(n_max as u64)),
            grid,
            frame,
        }
    }

    pub fn new(grid: [u32; 3]) -> (r: VolumeRenderer)
        ensures
            r == VolumeRenderer::of_grid(grid, 0),
    {
        let most: u32 = if grid[0] >= grid[1] && grid[0] >= grid[2] {
            grid[0]
        } else if grid[1] >= grid[2] {
            grid[1]
        } else {
            grid[2]
        };
        let n_max: Scalar = Scalar::of_integer(most as u64);
        let half: Scalar = Scalar::of_bits(HALF);
        VolumeRenderer {
            box_half: [
                half.times(Scalar::of_integer(grid[0] as u64)).over(n_max),
                half.times(Scalar::of_integer(grid[1] as u64)).over(n_max),
                half.times(Scalar::of_integer(grid[2] as u64)).over(n_max),
            ],
            cell: Scalar::of_bits(ONE).over(n_max),
            grid,
            frame: 0,
        }
    }

    pub fn box_half(&self) -> (r: [Scalar; 3])
        ensures
            r == self.box_half,
    {
        self.box_half
    }

    /// Point the renderer at another lattice; the frame counter goes on.
    pub fn rebind(&mut self, grid: [u32; 3])
        ensures
            *final(self) == VolumeRenderer::of_grid(grid, old(self).frame),
    {
        let frame: u32 = self.frame;
        *self = VolumeRenderer { frame, ..VolumeRenderer::new(grid) };
    }

    /// What the shader reads of a view.
    pub open spec fn uniform(
        self,
        inv_view_proj: [Scalar; 16],
        eye: [Scalar; 3],
        settings: RenderSettings,
    ) -> ViewUniform {
        let zero = Scalar::of_bits(ZERO);
        ViewUniform {
            inv_view_proj,
            cam_pos: [eye[0], eye[1], eye[2], zero],
            box_half: [self.box_half[0], self.box_half[1], self.box_half[2], self.cell],
            grid: [
                Scalar::of_integer(self.grid[0] as u64),
                Scalar::of_integer(self.grid[1] as u64),
                Scalar::of_integer(self.grid[2] as u64),
                zero,
            ],
            render0: [
                settings.iso_level,
                settings.wall_opacity,
                settings.samples_per_cell,
                settings.exposure,
            ],
            render1: [
                Scalar::of_integer(settings.field_mode.index() as u64),
                of_signed(settings.clip_axis),
                settings.clip_pos,
                Scalar::of_integer(settings.colormap as u64),
            ],
            render2: [
                settings.field_gain,
                settings.absorption,
                flag(settings.show_iso),
                flag(settings.show_volume),
            ],
            render3: [
                Scalar::of_integer((self.frame % 64) as u64).times(Scalar::of_bits(DITHER)),
                flag(settings.show_box),
                settings.background,
                zero,
            ],
        }
    }

    /// Go on to the next frame, and say what the shader is to read of it.  The
    /// dither is animated so banding averages away over time.
    pub fn update(
        &mut self,
        inv_view_proj: [Scalar; 16],
        eye: [Scalar; 3],
        settings: &RenderSettings,
    ) -> (r: ViewUniform)
        ensures
            *final(self) == (VolumeRenderer {
                frame: if old(self).frame == u32::MAX {
                    0
                } else {
                    (old(self).frame + 1) as u32
                },
                ..*old(self)
            }),
            r == final(self).uniform(inv_view_proj, eye, *settings),
    {
        self.frame = self.frame.wrapping_add(1);
        let zero: Scalar = Scalar::of_bits(ZERO);
        ViewUniform {
            inv_view_proj,
            cam_pos: [eye[0], eye[1], eye[2], zero],
            box_half: [self.box_half[0], self.box_half[1], self.box_half[2], self.cell],
            grid: [
                Scalar::of_integer(self.grid[0] as u64),
                Scalar::of_integer(self.grid[1] as u64),
                Scalar::of_integer(self.grid[2] as u64),
                zero,
            ],
            render0: [
                settings.iso_level,
                settings.wall_opacity,
                settings.samples_per_cell,
                settings.exposure,
            ],
            render1: [
                Scalar::of_integer(settings.field_mode.index() as u64),
                of_signed(settings.clip_axis),
                settings.clip_pos,
                Scalar::of_integer(settings.colormap as u64),
            ],
            render2: [
                settings.field_gain,
                settings.absorption,
                flag(settings.show_iso),
                flag(settings.show_volume),
            ],
            render3: [
                Scalar::of_integer((self.frame % 64) as u64).times(Scalar::of_bits(DITHER)),
                flag(settings.show_box),
                settings.background,
                zero,
            ],
        }
    }
}

/// The longest axis of the box spans exactly one, half of it on either side of
/// the middle, and no axis spans more.
pub proof fn law_longest_axis_spans_one(grid: [u32; 3], axis: int, frame: u32)
    requires
        0 <= axis < 3,
        longest(grid) > 0,
    ensures
        ({
            let half = VolumeRenderer::of_grid(grid, frame).box_half[axis];
            &&& grid[axis] == longest(grid) ==> half == Scalar::of_bits(HALF)
            &&& Scalar::of_bits(ZERO).le(half)
            &&& half.le(Scalar::of_bits(HALF))
        }),
{
    let n = grid[axis];
    let most = longest(grid);
    let g = Scalar::of_integer(n as u64);
    let m = Scalar::of_integer(most as u64);
    scalar::lemma_of_integer(n as u64);
    scalar::lemma_of_integer(most as u64);
    scalar::lemma_integers_ordered(most as u64, most as u64);
    scalar::lemma_integers_ordered(n as u64, most as u64);
    scalar::lemma_half_over(m);
    scalar::lemma_units_zero(g.magnitude());
    assert(0 * scalar::one_units() == 0);
    lemma_half_extent(g, m);
}

proof fn lemma_half_extent(g: Scalar, m: Scalar)
    requires
        g.is_finite(),
        m.is_finite(),
        !g.negative(),
        !m.negative(),
        g.magnitude() == 0 || g.magnitude() >= ONE,
        g.magnitude() <= m.magnitude(),
        m.magnitude() >= ONE,
    ensures
        Scalar::of_bits(ZERO).le(Scalar::of_bits(HALF).times(g).over(m)),
        Scalar::of_bits(HALF).times(g).over(m).le(Scalar::of_bits(HALF)),
{
    let half = Scalar::of_bits(HALF);
    let h = half.times(g);
    scalar::lemma_half(m);
    scalar::lemma_units_zero(0);
    scalar::lemma_units_zero(m.magnitude());
    let one = scalar::one_units();
    let uh = scalar::units(HALF as nat);
    scalar::lemma_half_is_half();
    if g.magnitude() == 0 {
        scalar::lemma_times_zero(half, g);
        assert(scalar::units(h.magnitude()) * one <= scalar::units(m.magnitude()) * uh)
            by (nonlinear_arith)
            requires
                scalar::units(h.magnitude()) == 0,
                scalar::units(m.magnitude()) >= 0,
                uh >= 0,
        ;
    } else {
        scalar::lemma_half(g);
        if g.magnitude() < m.magnitude() {
            scalar::lemma_units_order(g.magnitude(), m.magnitude());
        }
        assert(scalar::units(h.magnitude()) * one <= scalar::units(m.magnitude()) * uh)
            by (nonlinear_arith)
            requires
                2 * scalar::units(h.magnitude()) <= scalar::units(m.magnitude()),
                one == 2 * uh,
                uh >= 0,
        ;
    }
    scalar::lemma_over_bounded(h, m, HALF as nat);
    let r = h.over(m);
    scalar::lemma_units_zero(r.magnitude());
    if r.magnitude() < HALF {
        scalar::lemma_units_order(r.magnitude(), HALF as nat);
    }
}

} // verus!
