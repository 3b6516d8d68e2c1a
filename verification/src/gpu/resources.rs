//! Device resources: buffers, bind groups and compute pipelines, and how they
//! fit together.
//!
//! Six evolved fields per cell, split into two buffers so that both are
//! naturally aligned and coalesce well:
//!
//! | buffer  | contents            | bytes/cell |
//! |---------|---------------------|------------|
//! | `field` | `(phi, pi)`         | 8          |
//! | `fluid` | `(E, Zx, Zy, Zz)`   | 16         |
//! | `prim`  | `(vx, vy, vz, p)`   | 16 (cache) |
//!
//! Three copies of `(field, fluid)` are kept, which is the minimum for
//! SSP-RK3: the stage combination `a0 U^n + a1 (U^k + dt L(U^k))` reads `U^n`
//! and `U^k` while writing a third slot.

use vstd::prelude::*;

verus! {

/// Number of partial sums produced by the first reduction pass.
pub const N_PARTIALS: u32 = 1024;

/// Upper bound on bubbles stamped in a single nucleation dispatch.
pub const MAX_BUBBLES: usize = 1024;

/// Size of the diagnostics block.
pub const DIAG_BYTES: u64 = 32;

/// Bytes of one cell in a `field` buffer.
pub const FIELD_CELL: u64 = 8;

/// Bytes of one cell in a `fluid` buffer and in the primitive cache.
pub const FLUID_CELL: u64 = 16;

/// Bytes of one cell in the visualisation texture (`rgba16float`).
pub const VIS_CELL: u64 = 8;

// ---------------------------------------------------------------------------
//  Buffers
// ---------------------------------------------------------------------------

/// What a buffer may be used for.
#[derive(Clone, Copy, Debug, PartialEq, Eq, Structural)]
pub struct Usage {
    pub storage: bool,
    pub uniform: bool,
    pub copy_src: bool,
    pub copy_dst: bool,
    pub map_read: bool,
}

/// A device buffer.  The three state slots and the three stages are numbered
/// from zero.
#[derive(Clone, Copy, Debug, PartialEq, Eq, Structural)]
pub enum BufferId {
    Field(usize),
    Fluid(usize),
    Prim,
    Partials,
    Diag,
    DiagStaging,
    Bubbles,
    Params,
    Batch,
    Stage(usize),
}

impl BufferId {
    /// Whether the slot or stage number is one of the three.
    pub open spec fn valid(self) -> bool {
        match self {
            BufferId::Field(k) => k < 3,
            BufferId::Fluid(k) => k < 3,
            BufferId::Stage(s) => s < 3,
            _ => true,
        }
    }

    /// Every buffer, in the order of [`BufferId::index`].
    pub open spec fn all_spec() -> Seq<BufferId> {
        seq![
            BufferId::Field(0),
            BufferId::Field(1),
            BufferId::Field(2),
            BufferId::Fluid(0),
            BufferId::Fluid(1),
            BufferId::Fluid(2),
            BufferId::Prim,
            BufferId::Partials,
            BufferId::Diag,
            BufferId::DiagStaging,
            BufferId::Bubbles,
            BufferId::Params,
            BufferId::Batch,
            BufferId::Stage(0),
            BufferId::Stage(1),
            BufferId::Stage(2),
        ]
    }

    pub fn all() -> (r: Vec<BufferId>)
        ensures
            r@ == BufferId::all_spec(),
    {
        vec![
            BufferId::Field(0),
            BufferId::Field(1),
            BufferId::Field(2),
            BufferId::Fluid(0),
            BufferId::Fluid(1),
            BufferId::Fluid(2),
            BufferId::Prim,
            BufferId::Partials,
            BufferId::Diag,
            BufferId::DiagStaging,
            BufferId::Bubbles,
            BufferId::Params,
            BufferId::Batch,
            BufferId::Stage(0),
            BufferId::Stage(1),
            BufferId::Stage(2),
        ]
    }

    /// Where a buffer stands in the list of all.
    pub fn index(self) -> (r: usize)
        requires
            self.valid(),
        ensures
            r < BufferId::all_spec().len(),
            BufferId::all_spec()[r as int] == self,
    {
        match self {
            BufferId::Field(k) => k,
            BufferId::Fluid(k) => 3 + k,
            BufferId::Prim => 6,
            BufferId::Partials => 7,
            BufferId::Diag => 8,
            BufferId::DiagStaging => 9,
            BufferId::Bubbles => 10,
            BufferId::Params => 11,
            BufferId::Batch => 12,
            BufferId::Stage(s) => 13 + s,
        }
    }

    /// Size in bytes on a lattice of `cells` cells.
    pub open spec fn size_spec(self, cells: nat) -> nat {
        match self {
            BufferId::Field(_) => cells * FIELD_CELL as nat,
            BufferId::Fluid(_) => cells * FLUID_CELL as nat,
            BufferId::Prim => cells * FLUID_CELL as nat,
            BufferId::Partials => 16 * N_PARTIALS as nat,
            BufferId::Diag => DIAG_BYTES as nat,
            BufferId::DiagStaging => DIAG_BYTES as nat,
            BufferId::Bubbles => 16 * MAX_BUBBLES as nat,
            BufferId::Params => 96,
            BufferId::Batch => 16,
            BufferId::Stage(_) => 16,
        }
    }

    pub fn size(self, cells: u64) -> (r: u64)
        requires
            cells * FLUID_CELL <= u64::MAX,
        ensures
            r == self.size_spec(cells as nat),
    {
        match self {
            BufferId::Field(_) => cells * FIELD_CELL,
            BufferId::Fluid(_) => cells * FLUID_CELL,
            BufferId::Prim => cells * FLUID_CELL,
            BufferId::Partials => 16 * N_PARTIALS as u64,
            BufferId::Diag => DIAG_BYTES,
            BufferId::DiagStaging => DIAG_BYTES,
            BufferId::Bubbles => 16 * MAX_BUBBLES as u64,
            BufferId::Params => 96,
            BufferId::Batch => 16,
            BufferId::Stage(_) => 16,
        }
    }

    pub open spec fn usage_spec(self) -> Usage {
        let none = Usage {
            storage: false,
            uniform: false,
            copy_src: false,
            copy_dst: false,
            map_read: false,
        };
        match self {
            BufferId::Field(_) => Usage { storage: true, ..none },
            BufferId::Fluid(_) => Usage { storage: true, ..none },
            BufferId::Prim => Usage { storage: true, ..none },
            BufferId::Partials => Usage { storage: true, ..none },
            BufferId::Diag => Usage { storage: true, copy_src: true, copy_dst: true, ..none },
            BufferId::DiagStaging => Usage { map_read: true, copy_dst: true, ..none },
            BufferId::Bubbles => Usage { storage: true, copy_dst: true, ..none },
            BufferId::Params => Usage { uniform: true, copy_dst: true, ..none },
            BufferId::Batch => Usage { uniform: true, copy_dst: true, ..none },
            BufferId::Stage(_) => Usage { uniform: true, copy_dst: true, ..none },
        }
    }

    #[verifier::when_used_as_spec(usage_spec)]
    pub fn usage(self) -> (r: Usage)
        ensures
            r == self.usage_spec(),
    {
        let none: Usage = Usage {
            storage: false,
            uniform: false,
            copy_src: false,
            copy_dst: false,
            map_read: false,
        };
        match self {
            BufferId::Field(_) => Usage { storage: true, ..none },
            BufferId::Fluid(_) => Usage { storage: true, ..none },
            BufferId::Prim => Usage { storage: true, ..none },
            BufferId::Partials => Usage { storage: true, ..none },
            BufferId::Diag => Usage { storage: true, copy_src: true, copy_dst: true, ..none },
            BufferId::DiagStaging => Usage { map_read: true, copy_dst: true, ..none },
            BufferId::Bubbles => Usage { storage: true, copy_dst: true, ..none },
            BufferId::Params => Usage { uniform: true, copy_dst: true, ..none },
            BufferId::Batch => Usage { uniform: true, copy_dst: true, ..none },
            BufferId::Stage(_) => Usage { uniform: true, copy_dst: true, ..none },
        }
    }

    pub open spec fn label_spec(self) -> Seq<char> {
        match self {
            BufferId::Field(k) => if k == 0 {
                "field 0"@
            } else if k == 1 {
                "field 1"@
            } else {
                "field 2"@
            },
            BufferId::Fluid(k) => if k == 0 {
                "fluid 0"@
            } else if k == 1 {
                "fluid 1"@
            } else {
                "fluid 2"@
            },
            BufferId::Prim => "primitives"@,
            BufferId::Partials => "reduction partials"@,
            BufferId::Diag => "diagnostics"@,
            BufferId::DiagStaging => "diagnostics staging"@,
            BufferId::Bubbles => "bubbles"@,
            BufferId::Params => "sim params"@,
            BufferId::Batch => "nucleation batch"@,
            BufferId::Stage(s) => if s == 0 {
                "rk stage 0"@
            } else if s == 1 {
                "rk stage 1"@
            } else {
                "rk stage 2"@
            },
        }
    }

    pub fn label(self) -> (r: &'static str)
        requires
            self.valid(),
        ensures
            r@ == self.label_spec(),
    {
        match self {
            BufferId::Field(k) => if k == 0 {
                "field 0"
            } else if k == 1 {
                "field 1"
            } else {
                "field 2"
            },
            BufferId::Fluid(k) => if k == 0 {
                "fluid 0"
            } else if k == 1 {
                "fluid 1"
            } else {
                "fluid 2"
            },
            BufferId::Prim => "primitives",
            BufferId::Partials => "reduction partials",
            BufferId::Diag => "diagnostics",
            BufferId::DiagStaging => "diagnostics staging",
            BufferId::Bubbles => "bubbles",
            BufferId::Params => "sim params",
            BufferId::Batch => "nucleation batch",
            BufferId::Stage(s) => if s == 0 {
                "rk stage 0"
            } else if s == 1 {
                "rk stage 1"
            } else {
                "rk stage 2"
            },
        }
    }
}

// ---------------------------------------------------------------------------
//  Bind group layouts
// ---------------------------------------------------------------------------

/// How a shader sees one binding.
#[derive(Clone, Copy, Debug, PartialEq, Eq, Structural)]
pub enum Binding {
    Uniform,
    Storage { read_only: bool },
    /// A write-only 3D storage texture.
    StorageTexture,
}

impl Binding {
    /// Whether a shader may write through the binding.
    pub open spec fn writable(self) -> bool {
        match self {
            Binding::Uniform => false,
            Binding::Storage { read_only } => !read_only,
            Binding::StorageTexture => true,
        }
    }
}

#[derive(Clone, Copy, Debug, PartialEq, Eq, Structural)]
pub enum LayoutId {
    Params,
    ParamsStage,
    Init,
    Nucleate,
    Prim,
    Step,
    Vis,
    Reduce,
}

impl LayoutId {
    pub open spec fn all_spec() -> Seq<LayoutId> {
        seq![
            LayoutId::Params,
            LayoutId::ParamsStage,
            LayoutId::Init,
            LayoutId::Nucleate,
            LayoutId::Prim,
            LayoutId::Step,
            LayoutId::Vis,
            LayoutId::Reduce,
        ]
    }

    pub fn all() -> (r: Vec<LayoutId>)
        ensures
            r@ == LayoutId::all_spec(),
    {
        vec![
            LayoutId::Params,
            LayoutId::ParamsStage,
            LayoutId::Init,
            LayoutId::Nucleate,
            LayoutId::Prim,
            LayoutId::Step,
            LayoutId::Vis,
            LayoutId::Reduce,
        ]
    }

    /// Where a layout stands in the list of all.
    pub fn index(self) -> (r: usize)
        ensures
            r < LayoutId::all_spec().len(),
            LayoutId::all_spec()[r as int] == self,
    {
        match self {
            LayoutId::Params => 0,
            LayoutId::ParamsStage => 1,
            LayoutId::Init => 2,
            LayoutId::Nucleate => 3,
            LayoutId::Prim => 4,
            LayoutId::Step => 5,
            LayoutId::Vis => 6,
            LayoutId::Reduce => 7,
        }
    }

    /// The bindings, numbered from zero.
    pub open spec fn bindings_spec(self) -> Seq<Binding> {
        let uniform = Binding::Uniform;
        let read = Binding::Storage { read_only: true };
        let write = Binding::Storage { read_only: false };
        match self {
            LayoutId::Params => seq![uniform],
            LayoutId::ParamsStage => seq![uniform, uniform],
            LayoutId::Init => seq![write, write],
            LayoutId::Nucleate => seq![write, read, uniform],
            LayoutId::Prim => seq![read, read, write],
            LayoutId::Step => seq![read, read, read, read, read, write, write],
            LayoutId::Vis => seq![read, read, read, Binding::StorageTexture],
            LayoutId::Reduce => seq![read, read, read, write, write],
        }
    }

    pub fn bindings(self) -> (r: Vec<Binding>)
        ensures
            r@ == self.bindings_spec(),
    {
        let uniform: Binding = Binding::Uniform;
        let read: Binding = Binding::Storage { read_only: true };
        let write: Binding = Binding::Storage { read_only: false };
        match self {
            LayoutId::Params => vec![uniform],
            LayoutId::ParamsStage => vec![uniform, uniform],
            LayoutId::Init => vec![write, write],
            LayoutId::Nucleate => vec![write, read, uniform],
            LayoutId::Prim => vec![read, read, write],
            LayoutId::Step => vec![read, read, read, read, read, write, write],
            LayoutId::Vis => vec![read, read, read, Binding::StorageTexture],
            LayoutId::Reduce => vec![read, read, read, write, write],
        }
    }

    pub open spec fn label_spec(self) -> Seq<char> {
        match self {
            LayoutId::Params => "params"@,
            LayoutId::ParamsStage => "params + stage"@,
            LayoutId::Init => "init"@,
            LayoutId::Nucleate => "nucleate"@,
            LayoutId::Prim => "primitives"@,
            LayoutId::Step => "step"@,
            LayoutId::Vis => "vis"@,
            LayoutId::Reduce => "reduce"@,
        }
    }

    pub fn label(self) -> (r: &'static str)
        ensures
            r@ == self.label_spec(),
    {
        match self {
            LayoutId::Params => "params",
            LayoutId::ParamsStage => "params + stage",
            LayoutId::Init => "init",
            LayoutId::Nucleate => "nucleate",
            LayoutId::Prim => "primitives",
            LayoutId::Step => "step",
            LayoutId::Vis => "vis",
            LayoutId::Reduce => "reduce",
        }
    }
}

// ---------------------------------------------------------------------------
//  Slot rotation
// ---------------------------------------------------------------------------

/// The slots that stage `stage` of a step reads (besides the current one) and
/// writes.
pub open spec fn stage_slot(cur: int, stage: int) -> (int, int) {
    let b = (cur + 1) % 3;
    let c = (cur + 2) % 3;
    if stage == 0 {
        (cur, b)
    } else if stage == 1 {
        (b, c)
    } else {
        (c, b)
    }
}

/// Slot rotation for SSP-RK3 with three state buffers.
///
/// With `a = cur`, `b = (cur+1)%3`, `c = (cur+2)%3`:
///
/// | stage | reads `U^n` | reads `U^k` | writes |
/// |-------|-------------|-------------|--------|
/// | 0     | a           | a           | b      |
/// | 1     | a           | b           | c      |
/// | 2     | a           | c           | b      |
///
/// so the result lands in `b`, which becomes the new `cur`.  No stage writes a
/// slot it also reads.
pub fn stage_slots(cur: usize) -> (r: [(usize, usize); 3])
    requires
        cur < 3,
    ensures
        forall|stage: int|
            #![trigger r[stage]]
            0 <= stage < 3 ==> (r[stage].0 as int, r[stage].1 as int) == stage_slot(
                cur as int,
                stage,
            ),
{
    let a: usize = cur;
    let b: usize = (cur + 1) % 3;
    let c: usize = (cur + 2) % 3;
    [(a, b), (b, c), (c, b)]
}

/// No stage writes the current state or the state it advances, a stage advances
/// what the one before it wrote, and the last stage leaves its result in the
/// slot that becomes current.
pub proof fn law_stages_never_overwrite_their_input(cur: int, stage: int)
    requires
        0 <= cur < 3,
        0 <= stage < 3,
    ensures
        stage_slot(cur, stage).1 != cur,
        stage_slot(cur, stage).1 != stage_slot(cur, stage).0,
        0 <= stage_slot(cur, stage).0 < 3,
        0 <= stage_slot(cur, stage).1 < 3,
        stage_slot(cur, 0).0 == cur,
        stage > 0 ==> stage_slot(cur, stage).0 == stage_slot(cur, stage - 1).1,
        stage_slot(cur, 2).1 == (cur + 1) % 3,
{
}

// ---------------------------------------------------------------------------
//  Bind groups
// ---------------------------------------------------------------------------

/// What stands behind one binding.
#[derive(Clone, Copy, Debug, PartialEq, Eq, Structural)]
pub enum Resource {
    Buffer(BufferId),
    /// The visualisation volume.
    Volume,
}

impl Resource {
    /// Whether a resource can stand behind a binding of the given sort.
    pub open spec fn fits(self, binding: Binding) -> bool {
        match (self, binding) {
            (Resource::Buffer(b), Binding::Uniform) => b.valid() && b.usage().uniform,
            (Resource::Buffer(b), Binding::Storage { read_only: _ }) => b.valid()
                && b.usage().storage,
            (Resource::Volume, Binding::StorageTexture) => true,
            _ => false,
        }
    }
}

#[derive(Clone, Copy, Debug, PartialEq, Eq, Structural)]
pub enum GroupId {
    Params,
    ParamsStage(usize),
    Init(usize),
    Nucleate(usize),
    Prim(usize),
    Vis(usize),
    Reduce(usize),
    /// Stage `stage` of a step that starts in slot `cur`.
    Step { cur: usize, stage: usize },
}

impl GroupId {
    pub open spec fn valid(self) -> bool {
        match self {
            GroupId::Params => true,
            GroupId::ParamsStage(s) => s < 3,
            GroupId::Init(k) => k < 3,
            GroupId::Nucleate(k) => k < 3,
            GroupId::Prim(k) => k < 3,
            GroupId::Vis(k) => k < 3,
            GroupId::Reduce(k) => k < 3,
            GroupId::Step { cur, stage } => cur < 3 && stage < 3,
        }
    }

    /// How many bind groups there are.
    pub open spec fn count() -> nat {
        28
    }

    /// Where a group stands in the list of all.
    pub open spec fn index_spec(self) -> usize {
        match self {
            GroupId::Params => 0,
            GroupId::ParamsStage(s) => (1 + s) as usize,
            GroupId::Init(k) => (4 + k) as usize,
            GroupId::Nucleate(k) => (7 + k) as usize,
            GroupId::Prim(k) => (10 + k) as usize,
            GroupId::Vis(k) => (13 + k) as usize,
            GroupId::Reduce(k) => (16 + k) as usize,
            GroupId::Step { cur, stage } => (19 + 3 * cur + stage) as usize,
        }
    }

    #[verifier::when_used_as_spec(index_spec)]
    pub fn index(self) -> (r: usize)
        requires
            self.valid(),
        ensures
            r == self.index_spec(),
            r < GroupId::count(),
    {
        match self {
            GroupId::Params => 0,
            GroupId::ParamsStage(s) => 1 + s,
            GroupId::Init(k) => 4 + k,
            GroupId::Nucleate(k) => 7 + k,
            GroupId::Prim(k) => 10 + k,
            GroupId::Vis(k) => 13 + k,
            GroupId::Reduce(k) => 16 + k,
            GroupId::Step { cur, stage } => 19 + 3 * cur + stage,
        }
    }

    /// Every bind group, each at its index.
    pub fn all() -> (r: Vec<GroupId>)
        ensures
            r@.len() == GroupId::count(),
            forall|i: int| 0 <= i < r@.len() ==> (#[trigger] r@[i]).valid() && r@[i].index() == i,
    {
        let mut r: Vec<GroupId> = Vec::new();
        r.push(GroupId::Params);
        let mut k: usize = 0;
        while k < 3
            invariant
                k <= 3,
                r@.len() == 1 + k,
                forall|i: int|
                    0 <= i < r@.len() ==> (#[trigger] r@[i]).valid() && r@[i].index() == i,
            decreases 3 - k,
        {
            r.push(GroupId::ParamsStage(k));
            k = k + 1;
        }
        k = 0;
        while k < 3
            invariant
                k <= 3,
                r@.len() == 4 + k,
                forall|i: int|
                    0 <= i < r@.len() ==> (#[trigger] r@[i]).valid() && r@[i].index() == i,
            decreases 3 - k,
        {
            r.push(GroupId::Init(k));
            k = k + 1;
        }
        k = 0;
        while k < 3
            invariant
                k <= 3,
                r@.len() == 7 + k,
                forall|i: int|
                    0 <= i < r@.len() ==> (#[trigger] r@[i]).valid() && r@[i].index() == i,
            decreases 3 - k,
        {
            r.push(GroupId::Nucleate(k));
            k = k + 1;
        }
        k = 0;
        while k < 3
            invariant
                k <= 3,
                r@.len() == 10 + k,
                forall|i: int|
                    0 <= i < r@.len() ==> (#[trigger] r@[i]).valid() && r@[i].index() == i,
            decreases 3 - k,
        {
            r.push(GroupId::Prim(k));
            k = k + 1;
        }
        k = 0;
        while k < 3
            invariant
                k <= 3,
                r@.len() == 13 + k,
                forall|i: int|
                    0 <= i < r@.len() ==> (#[trigger] r@[i]).valid() && r@[i].index() == i,
            decreases 3 - k,
        {
            r.push(GroupId::Vis(k));
            k = k + 1;
        }
        k = 0;
        while k < 3
            invariant
                k <= 3,
                r@.len() == 16 + k,
                forall|i: int|
                    0 <= i < r@.len() ==> (#[trigger] r@[i]).valid() && r@[i].index() == i,
            decreases 3 - k,
        {
            r.push(GroupId::Reduce(k));
            k = k + 1;
        }
        k = 0;
        while k < 3
            invariant
                k <= 3,
                r@.len() == 19 + 3 * k,
                forall|i: int|
                    0 <= i < r@.len() ==> (#[trigger] r@[i]).valid() && r@[i].index() == i,
            decreases 3 - k,
        {
            r.push(GroupId::Step { cur: k, stage: 0 });
            r.push(GroupId::Step { cur: k, stage: 1 });
            r.push(GroupId::Step { cur: k, stage: 2 });
            k = k + 1;
        }
        r
    }

    pub open spec fn layout_spec(self) -> LayoutId {
        match self {
            GroupId::Params => LayoutId::Params,
            GroupId::ParamsStage(_) => LayoutId::ParamsStage,
            GroupId::Init(_) => LayoutId::Init,
            GroupId::Nucleate(_) => LayoutId::Nucleate,
            GroupId::Prim(_) => LayoutId::Prim,
            GroupId::Vis(_) => LayoutId::Vis,
            GroupId::Reduce(_) => LayoutId::Reduce,
            GroupId::Step { cur: _, stage: _ } => LayoutId::Step,
        }
    }

    #[verifier::when_used_as_spec(layout_spec)]
    pub fn layout(self) -> (r: LayoutId)
        ensures
            r == self.layout_spec(),
    {
        match self {
            GroupId::Params => LayoutId::Params,
            GroupId::ParamsStage(_) => LayoutId::ParamsStage,
            GroupId::Init(_) => LayoutId::Init,
            GroupId::Nucleate(_) => LayoutId::Nucleate,
            GroupId::Prim(_) => LayoutId::Prim,
            GroupId::Vis(_) => LayoutId::Vis,
            GroupId::Reduce(_) => LayoutId::Reduce,
            GroupId::Step { cur: _, stage: _ } => LayoutId::Step,
        }
    }

    /// What stands behind each binding, in order.
    pub open spec fn resources_spec(self) -> Seq<Resource> {
        match self {
            GroupId::Params => seq![Resource::Buffer(BufferId::Params)],
            GroupId::ParamsStage(s) => seq![
                Resource::Buffer(BufferId::Params),
                Resource::Buffer(BufferId::Stage(s)),
            ],
            GroupId::Init(k) => seq![
                Resource::Buffer(BufferId::Field(k)),
                Resource::Buffer(BufferId::Fluid(k)),
            ],
            GroupId::Nucleate(k) => seq![
                Resource::Buffer(BufferId::Field(k)),
                Resource::Buffer(BufferId::Bubbles),
                Resource::Buffer(BufferId::Batch),
            ],
            GroupId::Prim(k) => seq![
                Resource::Buffer(BufferId::Field(k)),
                Resource::Buffer(BufferId::Fluid(k)),
                Resource::Buffer(BufferId::Prim),
            ],
            GroupId::Vis(k) => seq![
                Resource::Buffer(BufferId::Field(k)),
                Resource::Buffer(BufferId::Fluid(k)),
                Resource::Buffer(BufferId::Prim),
                Resource::Volume,
            ],
            GroupId::Reduce(k) => seq![
                Resource::Buffer(BufferId::Field(k)),
                Resource::Buffer(BufferId::Fluid(k)),
                Resource::Buffer(BufferId::Prim),
                Resource::Buffer(BufferId::Partials),
                Resource::Buffer(BufferId::Diag),
            ],
            GroupId::Step { cur, stage } => {
                let (input, output) = stage_slot(cur as int, stage as int);
                seq![
                    Resource::Buffer(BufferId::Field(cur)),
                    Resource::Buffer(BufferId::Fluid(cur)),
                    Resource::Buffer(BufferId::Field(input as usize)),
                    Resource::Buffer(BufferId::Fluid(input as usize)),
                    Resource::Buffer(BufferId::Prim),
                    Resource::Buffer(BufferId::Field(output as usize)),
                    Resource::Buffer(BufferId::Fluid(output as usize)),
                ]
            },
        }
    }

    pub fn resources(self) -> (r: Vec<Resource>)
        requires
            self.valid(),
        ensures
            r@ == self.resources_spec(),
    {
        match self {
            GroupId::Params => vec![Resource::Buffer(BufferId::Params)],
            GroupId::ParamsStage(s) => vec![
                Resource::Buffer(BufferId::Params),
                Resource::Buffer(BufferId::Stage(s)),
            ],
            GroupId::Init(k) => vec![
                Resource::Buffer(BufferId::Field(k)),
                Resource::Buffer(BufferId::Fluid(k)),
            ],
            GroupId::Nucleate(k) => vec![
                Resource::Buffer(BufferId::Field(k)),
                Resource::Buffer(BufferId::Bubbles),
                Resource::Buffer(BufferId::Batch),
            ],
            GroupId::Prim(k) => vec![
                Resource::Buffer(BufferId::Field(k)),
                Resource::Buffer(BufferId::Fluid(k)),
                Resource::Buffer(BufferId::Prim),
            ],
            GroupId::Vis(k) => vec![
                Resource::Buffer(BufferId::Field(k)),
                Resource::Buffer(BufferId::Fluid(k)),
                Resource::Buffer(BufferId::Prim),
                Resource::Volume,
            ],
            GroupId::Reduce(k) => vec![
                Resource::Buffer(BufferId::Field(k)),
                Resource::Buffer(BufferId::Fluid(k)),
                Resource::Buffer(BufferId::Prim),
                Resource::Buffer(BufferId::Partials),
                Resource::Buffer(BufferId::Diag),
            ],
            GroupId::Step { cur, stage } => {
                let slots: [(usize, usize); 3] = stage_slots(cur);
                let (input, output): (usize, usize) = slots[stage];
                vec![
                    Resource::Buffer(BufferId::Field(cur)),
                    Resource::Buffer(BufferId::Fluid(cur)),
                    Resource::Buffer(BufferId::Field(input)),
                    Resource::Buffer(BufferId::Fluid(input)),
                    Resource::Buffer(BufferId::Prim),
                    Resource::Buffer(BufferId::Field(output)),
                    Resource::Buffer(BufferId::Fluid(output)),
                ]
            },
        }
    }
}

/// Every bind group fits its layout: as many resources as bindings, each of the
/// sort that its binding asks for.
pub proof fn law_groups_fit_their_layouts(group: GroupId)
    requires
        group.valid(),
    ensures
        group.resources_spec().len() == group.layout().bindings_spec().len(),
        forall|i: int|
            0 <= i < group.resources_spec().len() ==> (#[trigger] group.resources_spec()[i]).fits(
                group.layout().bindings_spec()[i],
            ),
{
}

/// No bind group lets a shader write a resource that it sees through another
/// binding as well.
pub proof fn law_no_group_aliases_a_write(group: GroupId, i: int, j: int)
    requires
        group.valid(),
        0 <= i < group.resources_spec().len(),
        0 <= j < group.resources_spec().len(),
        i != j,
        group.layout().bindings_spec()[i].writable(),
    ensures
        group.resources_spec()[i] != group.resources_spec()[j],
{
}

// ---------------------------------------------------------------------------
//  Pipelines
// ---------------------------------------------------------------------------

#[derive(Clone, Copy, Debug, PartialEq, Eq, Structural)]
pub enum PipelineId {
    Init,
    Nucleate,
    Prim,
    Step,
    Vis,
    Reduce1,
    Reduce2,
}

impl PipelineId {
    pub open spec fn all_spec() -> Seq<PipelineId> {
        seq![
            PipelineId::Init,
            PipelineId::Nucleate,
            PipelineId::Prim,
            PipelineId::Step,
            PipelineId::Vis,
            PipelineId::Reduce1,
            PipelineId::Reduce2,
        ]
    }

    pub fn all() -> (r: Vec<PipelineId>)
        ensures
            r@ == PipelineId::all_spec(),
    {
        vec![
            PipelineId::Init,
            PipelineId::Nucleate,
            PipelineId::Prim,
            PipelineId::Step,
            PipelineId::Vis,
            PipelineId::Reduce1,
            PipelineId::Reduce2,
        ]
    }

    /// Where a pipeline stands in the list of all.
    pub fn index(self) -> (r: usize)
        ensures
            r < PipelineId::all_spec().len(),
            PipelineId::all_spec()[r as int] == self,
    {
        match self {
            PipelineId::Init => 0,
            PipelineId::Nucleate => 1,
            PipelineId::Prim => 2,
            PipelineId::Step => 3,
            PipelineId::Vis => 4,
            PipelineId::Reduce1 => 5,
            PipelineId::Reduce2 => 6,
        }
    }

    /// The layouts of the two bind groups: parameters, then state.
    pub open spec fn layouts_spec(self) -> (LayoutId, LayoutId) {
        match self {
            PipelineId::Init => (LayoutId::Params, LayoutId::Init),
            PipelineId::Nucleate => (LayoutId::Params, LayoutId::Nucleate),
            PipelineId::Prim => (LayoutId::Params, LayoutId::Prim),
            PipelineId::Step => (LayoutId::ParamsStage, LayoutId::Step),
            PipelineId::Vis => (LayoutId::Params, LayoutId::Vis),
            PipelineId::Reduce1 => (LayoutId::Params, LayoutId::Reduce),
            PipelineId::Reduce2 => (LayoutId::Params, LayoutId::Reduce),
        }
    }

    #[verifier::when_used_as_spec(layouts_spec)]
    pub fn layouts(self) -> (r: (LayoutId, LayoutId))
        ensures
            r == self.layouts_spec(),
    {
        match self {
            PipelineId::Init => (LayoutId::Params, LayoutId::Init),
            PipelineId::Nucleate => (LayoutId::Params, LayoutId::Nucleate),
            PipelineId::Prim => (LayoutId::Params, LayoutId::Prim),
            PipelineId::Step => (LayoutId::ParamsStage, LayoutId::Step),
            PipelineId::Vis => (LayoutId::Params, LayoutId::Vis),
            PipelineId::Reduce1 => (LayoutId::Params, LayoutId::Reduce),
            PipelineId::Reduce2 => (LayoutId::Params, LayoutId::Reduce),
        }
    }

    pub open spec fn label_spec(self) -> Seq<char> {
        match self {
            PipelineId::Init => "init"@,
            PipelineId::Nucleate => "nucleate"@,
            PipelineId::Prim => "primitives"@,
            PipelineId::Step => "step"@,
            PipelineId::Vis => "vis"@,
            PipelineId::Reduce1 => "reduce pass 1"@,
            PipelineId::Reduce2 => "reduce pass 2"@,
        }
    }

    pub fn label(self) -> (r: &'static str)
        ensures
            r@ == self.label_spec(),
    {
        match self {
            PipelineId::Init => "init",
            PipelineId::Nucleate => "nucleate",
            PipelineId::Prim => "primitives",
            PipelineId::Step => "step",
            PipelineId::Vis => "vis",
            PipelineId::Reduce1 => "reduce pass 1",
            PipelineId::Reduce2 => "reduce pass 2",
        }
    }

    /// The shader module a pipeline is compiled from.
    pub open spec fn module_spec(self) -> Seq<char> {
        match self {
            PipelineId::Init => "init"@,
            PipelineId::Nucleate => "nucleate"@,
            PipelineId::Prim => "primitives"@,
            PipelineId::Step => "step"@,
            PipelineId::Vis => "vis"@,
            PipelineId::Reduce1 => "reduce"@,
            PipelineId::Reduce2 => "reduce"@,
        }
    }

    pub fn module(self) -> (r: &'static str)
        ensures
            r@ == self.module_spec(),
    {
        match self {
            PipelineId::Init => "init",
            PipelineId::Nucleate => "nucleate",
            PipelineId::Prim => "primitives",
            PipelineId::Step => "step",
            PipelineId::Vis => "vis",
            PipelineId::Reduce1 => "reduce",
            PipelineId::Reduce2 => "reduce",
        }
    }

    pub open spec fn entry_point_spec(self) -> Seq<char> {
        match self {
            PipelineId::Reduce1 => "reduce_pass1"@,
            PipelineId::Reduce2 => "reduce_pass2"@,
            _ => "main"@,
        }
    }

    pub fn entry_point(self) -> (r: &'static str)
        ensures
            r@ == self.entry_point_spec(),
    {
        match self {
            PipelineId::Reduce1 => "reduce_pass1",
            PipelineId::Reduce2 => "reduce_pass2",
            _ => "main",
        }
    }
}

} // verus!
