//! What the walk reads, and how it fails.

use crate::float::{F32, F64};
use crate::vector::Vec3;
use vstd::prelude::*;

verus! {

/// The identity of a volume or of a collider.
#[derive(Clone, Copy, Debug, PartialEq, Eq, PartialOrd, Ord, Hash, Structural)]
pub struct Entity {
    pub id: u64,
}

impl Entity {
    /// Stands where no entity can be named.
    #[verifier::allow_in_spec]
    pub fn placeholder() -> Entity
        returns
            (Entity { id: u64::MAX }),
    {
        Entity { id: u64::MAX }
    }
}

/// One primitive of one ballistic volume.
#[derive(Clone, Copy, Debug, PartialEq, Eq, PartialOrd, Ord, Hash, Structural)]
pub struct PrimitiveKey {
    /// The volume: where the factor and the damage address live.
    pub volume: Entity,
    /// The collider that carries the primitive's geometry.
    pub primitive: Entity,
}

/// One closed shell of one primitive: the unit presence is tracked on. Several
/// shells may share a primitive, and a ray may enter one while inside another.
#[derive(Clone, Copy, Debug, PartialEq, Eq, PartialOrd, Ord, Hash, Structural)]
pub struct ShellKey {
    pub volume: Entity,
    pub primitive: Entity,
    pub shell: u32,
}

impl ShellKey {
    pub open spec fn spec_primitive_key(self) -> PrimitiveKey {
        PrimitiveKey { volume: self.volume, primitive: self.primitive }
    }

    /// The primitive the shell belongs to.
    pub fn primitive_key(self) -> (key: PrimitiveKey)
        ensures
            key == self.spec_primitive_key(),
    {
        PrimitiveKey { volume: self.volume, primitive: self.primitive }
    }

    /// Keys order by volume, then primitive, then shell.
    pub open spec fn precedes(self, other: ShellKey) -> bool {
        ||| self.volume.id < other.volume.id
        ||| self.volume.id == other.volume.id && self.primitive.id < other.primitive.id
        ||| self.volume.id == other.volume.id && self.primitive.id == other.primitive.id && self.shell < other.shell
    }

    pub fn is_before(self, other: ShellKey) -> (yes: bool)
        ensures
            yes == self.precedes(other),
    {
        self.volume.id < other.volume.id || (self.volume.id == other.volume.id && self.primitive.id < other.primitive.id)
            || (self.volume.id == other.volume.id && self.primitive.id == other.primitive.id && self.shell
            < other.shell)
    }
}

/// The feature of a shell's surface that a ray meets: what one crossing is
/// identified by. Faces that meet at the feature each report it.
#[derive(Clone, Copy, Debug, PartialEq, Eq, PartialOrd, Ord, Hash, Structural)]
pub enum Contact {
    /// The inside of the face with this index.
    Face(u32),
    /// The edge between two vertices, the lower index first.
    Edge(u32, u32),
    /// The vertex with this index.
    Vertex(u32),
}

/// One face crossing along a sample ray.
#[derive(Clone, Copy, Debug, PartialEq, Eq, Structural)]
pub struct FaceHit {
    pub volume: Entity,
    pub primitive: Entity,
    pub shell: u32,
    pub contact: Contact,
    /// Names the face in a [`WalkError`]; decides nothing.
    pub triangle: u32,
    /// Distance along the ray from the corridor's origin.
    pub t: F64,
    /// The outward normal of the face, from its winding.
    pub true_normal: Vec3,
}

impl FaceHit {
    pub open spec fn spec_key(self) -> ShellKey {
        ShellKey { volume: self.volume, primitive: self.primitive, shell: self.shell }
    }

    /// The shell the face belongs to.
    pub fn key(&self) -> (key: ShellKey)
        ensures
            key == self.spec_key(),
    {
        ShellKey { volume: self.volume, primitive: self.primitive, shell: self.shell }
    }
}

/// One sample ray's collected corridor, the half-open stretch from its origin to
/// its length. A hit at or past the length belongs to the next corridor.
#[derive(Clone, Debug, PartialEq)]
pub struct RayCorridor {
    /// The world position that every other position here is measured from.
    pub anchor: Vec3,
    /// The corridor's start, relative to the anchor.
    pub origin: Vec3,
    /// The unit direction of travel.
    pub axis: Vec3,
    pub length: F32,
    /// The shells the origin is already inside; declared by the caller, never inferred.
    pub initial_presence: Vec<ShellKey>,
    pub hits: Vec<FaceHit>,
}

/// A violated invariant.
#[derive(Clone, Debug, PartialEq)]
pub enum WalkError {
    /// A factor that cannot take part in a maximum or a sum.
    BadFactor { volume: Entity, factor: F32 },
    /// A volume that the table does not carry.
    UnknownVolume { volume: Entity },
    /// A malformed corridor.
    BadCorridor { sample: usize, reason: &'static str },
    /// An exit from a shell that the walk is not inside.
    UnexpectedExit { sample: usize, key: ShellKey, t: F64, triangles: Vec<u32> },
    /// An entry into a shell that the walk is already inside.
    UnexpectedEntry { sample: usize, key: ShellKey, t: F64, triangles: Vec<u32> },
    /// Two features of one shell met at one exact distance: no order between them
    /// exists, and reading the pair as a touch would cross what they bound for free.
    UnrepresentableChord { sample: usize, key: ShellKey, t: F64, triangles: Vec<u32> },
    /// The corridor ran out with material still open.
    IncompleteCorridor { sample: usize, open: Vec<ShellKey>, length: F32 },
    /// A candidate could not be probed.
    CollectorFailed { volume: Entity, reason: &'static str },
    /// One corridor met more faces than the collector holds.
    CorridorOverflow { volume: Entity, collected: usize, limit: usize },
    /// The corridor handed in is not the one that was asked for.
    CorridorMismatch { reason: &'static str },
    /// The covered samples' entry normals cancelled.
    DegenerateEntryNormal { coverage: F32 },
}

/// Every tunable the walk reads.
#[derive(Clone, Copy, Debug, PartialEq, Eq, Structural)]
pub struct WalkLaws {
    /// The distance (m) under which two marks name one boundary.
    pub topology_abs: F32,
    /// The same, relative to the larger of the two distances.
    pub topology_rel: F32,
    /// A face toggles nothing when its normal's share of the axis is at most this.
    pub tangent_cos: F32,
    /// The widest gap (m), across the faces, that welds two runs.
    pub weld_perp: F32,
    /// How squarely the two faces of a welded gap oppose each other.
    pub weld_face_cos: F32,
    /// The longest gap (m), along the ray, that welds two runs.
    pub weld_max_lookahead: F32,
    /// The gap (m), across the faces, that one run may swallow in all.
    pub weld_run_gap_budget: F32,
    /// Two entry patches lie on one surface when their normals agree to this cosine.
    pub event_plane_cos: F32,
    /// And when the entry points are this near (m) to the shared plane.
    pub event_plane_tolerance: F32,
    /// And when each starts this near (m) to where that plane puts it.
    pub event_residual_tolerance: F32,
    /// The largest secant of the incidence that the prediction uses.
    pub event_secant_cap: F32,
    /// Past this incidence (rad) a round that does not overmatch ricochets.
    pub ricochet_angle: F32,
    /// The speed kept through a fully covered ricochet.
    pub ricochet_bleed: F32,
    /// The share of the incidence that a round straightens by as it bites in.
    pub normalization: F32,
    /// A round overmatches from this many thicknesses of calibre on.
    pub overmatch_ratio: F32,
    /// Reference millimetres in one metre of the reference substance.
    pub rha_reference: F32,
}

impl WalkLaws {
    pub open spec fn spec_default() -> WalkLaws {
        WalkLaws {
            topology_abs: F32 { bits: 0x3586_37bd },
            topology_rel: F32 { bits: 0x34d6_bf95 },
            tangent_cos: F32 { bits: 0x38d1_b717 },
            weld_perp: F32 { bits: 0x3b03_126f },
            weld_face_cos: F32 { bits: 0x3f00_0000 },
            weld_max_lookahead: F32 { bits: 0x3d4c_cccd },
            weld_run_gap_budget: F32 { bits: 0x3b03_126f },
            event_plane_cos: F32 { bits: 0x3f66_6666 },
            event_plane_tolerance: F32 { bits: 0x3b03_126f },
            event_residual_tolerance: F32 { bits: 0x3c23_d70a },
            event_secant_cap: F32 { bits: 0x42c8_0000 },
            ricochet_angle: F32 { bits: 0x3f9c_49ba },
            ricochet_bleed: F32 { bits: 0x3f19_999a },
            normalization: F32 { bits: 0x3e4c_cccd },
            overmatch_ratio: F32 { bits: 0x4040_0000 },
            rha_reference: F32 { bits: 0x447a_0000 },
        }
    }
}

impl Default for WalkLaws {
    /// A micrometre and three units in the last place of topology, two
    /// millimetres of weld, five centimetres of lookahead, seventy degrees to a
    /// ricochet that keeps three fifths of the speed, a fifth of normalization,
    /// three calibres to overmatch, a thousand reference millimetres to the metre.
    fn default() -> (laws: WalkLaws)
        ensures
            laws == WalkLaws::spec_default(),
    {
        WalkLaws {
            topology_abs: F32 { bits: 0x3586_37bd },
            topology_rel: F32 { bits: 0x34d6_bf95 },
            tangent_cos: F32 { bits: 0x38d1_b717 },
            weld_perp: F32 { bits: 0x3b03_126f },
            weld_face_cos: F32 { bits: 0x3f00_0000 },
            weld_max_lookahead: F32 { bits: 0x3d4c_cccd },
            weld_run_gap_budget: F32 { bits: 0x3b03_126f },
            event_plane_cos: F32 { bits: 0x3f66_6666 },
            event_plane_tolerance: F32 { bits: 0x3b03_126f },
            event_residual_tolerance: F32 { bits: 0x3c23_d70a },
            event_secant_cap: F32 { bits: 0x42c8_0000 },
            ricochet_angle: F32 { bits: 0x3f9c_49ba },
            ricochet_bleed: F32 { bits: 0x3f19_999a },
            normalization: F32 { bits: 0x3e4c_cccd },
            overmatch_ratio: F32 { bits: 0x4040_0000 },
            rha_reference: F32 { bits: 0x447a_0000 },
        }
    }
}

} // verus!
