//! The target of a run as plain geometry, and how a ray is walked through it.

use crate::ballistics::collect;
use crate::ballistics::collect::{swept_aabb, Aabb, BallisticSurfaces, Candidate, Collider, Shape, TriMesh};
use crate::ballistics::fuzz::findings::{TargetKind, PROBE_COUNT};
use crate::ballistics::fuzz::rays::FuzzRay;
use crate::ballistics::resolve;
use crate::ballistics::resolve::{build_corridor, volume_table, CorridorRequest};
use crate::ballistics::walk::disc::{DiscCorridor, DiscFrame, DiscWalk};
use crate::ballistics::walk::disc_walk;
use crate::ballistics::walk::disc_walk::walk_disc;
use crate::ballistics::walk::table;
use crate::ballistics::walk::table::VolumeTable;
use crate::ballistics::walk::vocabulary::{Entity, WalkError, WalkLaws};
use crate::float::F32;
use crate::vector::{Quat, Vec3};
use vstd::prelude::*;
use vstd::string::StringExecFns;

verus! {

/// One collider of the target, with its box in the world.
#[derive(Clone, Debug, PartialEq)]
pub struct SceneCollider {
    pub node: Entity,
    pub primitive: Entity,
    pub aabb: Aabb,
    pub position: Vec3,
    pub rotation: Quat,
    pub scale: Vec3,
    pub mesh: TriMesh,
    pub surfaces: Option<BallisticSurfaces>,
}

/// A volume that a corridor to is worth reporting.
#[derive(Clone, Debug, PartialEq)]
pub struct Target {
    pub entity: Entity,
    pub name: String,
    pub kind: TargetKind,
}

/// A turn, a stretch and a shift, by columns.
#[derive(Clone, Copy, Debug, PartialEq, Eq, Structural)]
pub struct Affine {
    pub x_axis: Vec3,
    pub y_axis: Vec3,
    pub z_axis: Vec3,
    pub translation: Vec3,
}

impl Affine {
    pub open spec fn turned(self, v: Vec3) -> Vec3 {
        self.x_axis.scaled(v.x).sum(self.y_axis.scaled(v.y)).sum(self.z_axis.scaled(v.z))
    }

    pub open spec fn moved(self, p: Vec3) -> Vec3 {
        self.turned(p).sum(self.translation)
    }

    pub fn vector(&self, v: Vec3) -> (turned: Vec3)
        ensures
            turned == self.turned(v),
    {
        self.x_axis.times(v.x).plus(self.y_axis.times(v.y)).plus(self.z_axis.times(v.z))
    }

    pub fn point(&self, p: Vec3) -> (moved: Vec3)
        ensures
            moved == self.moved(p),
    {
        self.vector(p).plus(self.translation)
    }
}

/// The bound target.
#[derive(Clone, Debug, PartialEq)]
pub struct Scene {
    /// By volume, then by collider.
    pub colliders: Vec<SceneCollider>,
    /// The factor of each volume.
    pub factors: Vec<(Entity, F32)>,
    pub names: Vec<(Entity, String)>,
    /// How each entity is written down, named or not.
    pub written: Vec<(Entity, String)>,
    /// Each entity's parent.
    pub parents: Vec<(Entity, Entity)>,
    pub targets: Vec<Target>,
    /// A volume and a collider that stand for a copy.
    pub spare_volume: Entity,
    pub spare_primitive: Entity,
    /// From the world to the target's own frame.
    pub to_local: Affine,
    /// The target's box in its own frame.
    pub local: Aabb,
    /// The sphere around the target, in the world.
    pub center: Vec3,
    pub radius: F32,
    pub laws: WalkLaws,
    /// What each gun can defeat.
    pub capabilities: Vec<F32>,
    /// The cosine and sine of each angle of the disc's ring.
    pub ring: Vec<(F32, F32)>,
}

impl Scene {
    /// Triangles are numbered by 32 bits, every volume can be written down, each gun has
    /// its capability, and the ring leaves room for the axis.
    pub open spec fn wf(self) -> bool {
        &&& forall|i: int|
            0 <= i < self.colliders@.len() ==> (#[trigger] self.colliders@[i]).mesh.triangles@.len() <= u32::MAX
                && is_written(self, self.colliders@[i].node)
        &&& self.capabilities@.len() == PROBE_COUNT
        &&& self.ring@.len() < usize::MAX
    }
}

/// The boxes touch.
pub open spec fn overlaps(a: Aabb, b: Aabb) -> bool {
    &&& a.min.x.at_most(b.max.x)
    &&& b.min.x.at_most(a.max.x)
    &&& a.min.y.at_most(b.max.y)
    &&& b.min.y.at_most(a.max.y)
    &&& a.min.z.at_most(b.max.z)
    &&& b.min.z.at_most(a.max.z)
}

pub(crate) fn overlap(a: &Aabb, b: &Aabb) -> (yes: bool)
    ensures
        yes == overlaps(*a, *b),
{
    a.min.x.le(b.max.x) && b.min.x.le(a.max.x) && a.min.y.le(b.max.y) && b.min.y.le(a.max.y) && a.min.z.le(b.max.z)
        && b.min.z.le(a.max.z)
}

/// A collider as a candidate.
pub open spec fn candidate_of(collider: &SceneCollider) -> Candidate<'_> {
    Candidate {
        node: collider.node,
        primitive: collider.primitive,
        collider: Some(
            Collider {
                position: collider.position,
                rotation: collider.rotation,
                scale: collider.scale,
                shape: Shape::TriMesh(
                    &collider.mesh,
                    match collider.surfaces {
                        Some(surfaces) => Some(&surfaces),
                        None => None,
                    },
                ),
            },
        ),
    }
}

/// The candidates among the first `n` colliders whose box the other touches.
pub open spec fn candidates_upto(colliders: Seq<SceneCollider>, aabb: Aabb, n: int) -> Seq<Candidate<'static>>
    decreases n,
{
    if n <= 0 {
        Seq::empty()
    } else if overlaps(colliders[n - 1].aabb, aabb) {
        candidates_upto(colliders, aabb, n - 1).push(candidate_of(&colliders[n - 1]))
    } else {
        candidates_upto(colliders, aabb, n - 1)
    }
}

fn candidates<'a>(scene: &'a Scene, aabb: &Aabb) -> (found: Vec<Candidate<'a>>)
    requires
        scene.wf(),
    ensures
        found@ == candidates_upto(scene.colliders@, *aabb, scene.colliders@.len() as int),
        forall|i: int| 0 <= i < found@.len() ==> (#[trigger] found@[i]).wf(),
{
    let mut found: Vec<Candidate<'a>> = Vec::new();
    let mut n: usize = 0;
    while n < scene.colliders.len()
        invariant
            n <= scene.colliders@.len(),
            scene.wf(),
            found@ == candidates_upto(scene.colliders@, *aabb, n as int),
            forall|i: int| 0 <= i < found@.len() ==> (#[trigger] found@[i]).wf(),
        decreases scene.colliders.len() - n,
    {
        let collider: &'a SceneCollider = &scene.colliders[n];
        if overlap(&collider.aabb, aabb) {
            let surfaces: Option<&'a BallisticSurfaces> = match &collider.surfaces {
                Some(surfaces) => Some(surfaces),
                None => None,
            };
            found.push(
                Candidate {
                    node: collider.node,
                    primitive: collider.primitive,
                    collider: Some(
                        Collider {
                            position: collider.position,
                            rotation: collider.rotation,
                            scale: collider.scale,
                            shape: Shape::TriMesh(&collider.mesh, surfaces),
                        },
                    ),
                },
            );
        }
        n = n + 1;
    }
    found
}

/// The name of an entity, from row `i` on.
pub open spec fn name_from(names: Seq<(Entity, String)>, entity: Entity, i: int) -> Option<Seq<char>>
    decreases names.len() - i,
{
    if i < 0 || i >= names.len() {
        None
    } else if names[i].0 == entity {
        Some(names[i].1@)
    } else {
        name_from(names, entity, i + 1)
    }
}

/// The parent of an entity, from row `i` on.
pub open spec fn parent_from(parents: Seq<(Entity, Entity)>, entity: Entity, i: int) -> Option<Entity>
    decreases parents.len() - i,
{
    if i < 0 || i >= parents.len() {
        None
    } else if parents[i].0 == entity {
        Some(parents[i].1)
    } else {
        parent_from(parents, entity, i + 1)
    }
}

/// The target says how the entity is written down.
pub open spec fn is_written(scene: Scene, entity: Entity) -> bool {
    name_from(scene.written@, entity, 0) is Some
}

/// How the entity is written down.
pub open spec fn written_as(scene: Scene, entity: Entity) -> Seq<char> {
    name_from(scene.written@, entity, 0)->Some_0
}

/// The name of the nearest named one above `at`, or how the entity is written down where
/// there is none within so many steps.
pub open spec fn label_above(scene: Scene, entity: Entity, at: Entity, steps: nat) -> Seq<char>
    decreases steps,
{
    match parent_from(scene.parents@, at, 0) {
        None => written_as(scene, entity),
        Some(parent) => match name_from(scene.names@, parent, 0) {
            Some(name) => name + " (shard)"@,
            None => if steps == 0 {
                written_as(scene, entity)
            } else {
                label_above(scene, entity, parent, (steps - 1) as nat)
            },
        },
    }
}

/// What a volume is called: its own name; the name above it, for a part of a split
/// volume; or as it is written down.
pub open spec fn label_of(scene: Scene, entity: Entity) -> Seq<char> {
    match name_from(scene.names@, entity, 0) {
        Some(name) => name,
        None => label_above(scene, entity, entity, scene.parents@.len()),
    }
}

fn find_name(names: &Vec<(Entity, String)>, entity: Entity) -> (name: Option<String>)
    ensures
        match name {
            Some(name) => name_from(names@, entity, 0) == Some(name@),
            None => name_from(names@, entity, 0) is None,
        },
{
    let mut i: usize = 0;
    while i < names.len()
        invariant
            i <= names@.len(),
            name_from(names@, entity, 0) == name_from(names@, entity, i as int),
        decreases names.len() - i,
    {
        if names[i].0 == entity {
            return Some(names[i].1.clone());
        }
        i = i + 1;
    }
    None
}

fn find_parent(parents: &Vec<(Entity, Entity)>, entity: Entity) -> (parent: Option<Entity>)
    ensures
        parent == parent_from(parents@, entity, 0),
{
    let mut i: usize = 0;
    while i < parents.len()
        invariant
            i <= parents@.len(),
            parent_from(parents@, entity, 0) == parent_from(parents@, entity, i as int),
        decreases parents.len() - i,
    {
        if parents[i].0 == entity {
            return Some(parents[i].1);
        }
        i = i + 1;
    }
    None
}

/// How a volume is written down, whatever it is called.
pub fn volume_text(scene: &Scene, entity: Entity) -> (text: String)
    requires
        is_written(*scene, entity),
    ensures
        text@ == written_as(*scene, entity),
{
    match find_name(&scene.written, entity) {
        Some(text) => text,
        None => String::new(),
    }
}

/// The name that a report calls a volume by.
pub fn volume_name(scene: &Scene, entity: Entity) -> (name: String)
    requires
        is_written(*scene, entity),
    ensures
        name@ == label_of(*scene, entity),
{
    match find_name(&scene.names, entity) {
        Some(name) => {
            return name;
        },
        None => {},
    }
    let mut at: Entity = entity;
    let mut steps: usize = scene.parents.len();
    loop
        invariant
            is_written(*scene, entity),
            label_of(*scene, entity) == label_above(*scene, entity, at, steps as nat),
        decreases steps,
    {
        let parent: Entity = match find_parent(&scene.parents, at) {
            Some(parent) => parent,
            None => {
                return volume_text(scene, entity);
            },
        };
        match find_name(&scene.names, parent) {
            Some(name) => {
                return name.concat(" (shard)");
            },
            None => {},
        }
        if steps == 0 {
            return volume_text(scene, entity);
        }
        at = parent;
        steps = steps - 1;
    }
}

/// The corridor to collect for a ray.
pub open spec fn is_probe_request(request: CorridorRequest, ray: FuzzRay, frame: DiscFrame, radius: F32) -> bool {
    &&& request.anchor == ray.origin
    &&& request.origin == Vec3::zero()
    &&& request.axis == ray.direction
    &&& request.frame == frame
    &&& request.radius == radius
    &&& request.seeds@.len() == 0
    &&& request.length == ray.length
}

/// What the scene answers for each sample of a request: the same candidates for all.
pub open spec fn answers_of(scene: Scene, request: CorridorRequest) -> Seq<Seq<Candidate<'static>>> {
    let aabb = collect::swept(
        request.anchor.sum(request.origin),
        request.axis,
        request.length,
        request.radius,
    );
    Seq::new(
        resolve::sample_count(request, scene.ring@),
        |i: int| candidates_upto(scene.colliders@, aabb, scene.colliders@.len() as int),
    )
}

/// What is collected along a ray by a disc of a radius.
pub open spec fn is_collected(
    result: Result<DiscCorridor, WalkError>,
    scene: Scene,
    ray: FuzzRay,
    frame: DiscFrame,
    radius: F32,
) -> bool {
    exists|request: CorridorRequest| #[trigger]
        is_probe_request(request, ray, frame, radius) && resolve::is_corridor(
            result,
            request,
            scene.ring@,
            answers_of(scene, request),
            scene.laws,
        )
}

/// The frame of a ray's disc.
pub open spec fn frame_of(ray: FuzzRay) -> Option<DiscFrame> {
    DiscFrame::spec_from(ray.direction, DiscFrame::spec_reference(ray.direction))
}

/// The parts of a probe: the corridor and the table of its volumes, or what fails.
pub open spec fn are_parts(
    result: Result<(DiscCorridor, VolumeTable), WalkError>,
    scene: Scene,
    ray: FuzzRay,
    radius: F32,
) -> bool {
    match frame_of(ray) {
        None => result matches Err(error) && (error matches WalkError::BadCorridor { sample, reason } && sample == 0
            && reason@ == "the generated ray has no usable sampling basis"@),
        Some(frame) => match result {
            Ok((corridor, volumes)) => {
                &&& is_collected(Ok(corridor), scene, ray, frame, radius)
                &&& resolve::is_known(Ok(volumes), corridor, scene.factors@)
            },
            Err(error) => {
                ||| is_collected(Err(error), scene, ray, frame, radius)
                ||| exists|corridor: DiscCorridor| #[trigger]
                    is_collected(Ok(corridor), scene, ray, frame, radius) && resolve::is_known(
                        Err(error),
                        corridor,
                        scene.factors@,
                    )
            },
        },
    }
}

/// The parts of a probe, for a disc of a radius; zero is the axis alone.
pub fn probe_parts(scene: &Scene, ray: &FuzzRay, radius: F32) -> (result: Result<(DiscCorridor, VolumeTable), WalkError>)
    requires
        scene.wf(),
    ensures
        are_parts(result, *scene, *ray, radius),
        result matches Ok((corridor, _)) ==> corridor.samples@.len() > 0,
{
    let frame: DiscFrame = match DiscFrame::anchored(ray.direction) {
        Some(frame) => frame,
        None => {
            return Err(
                WalkError::BadCorridor { sample: 0, reason: "the generated ray has no usable sampling basis" },
            );
        },
    };
    let request: CorridorRequest = CorridorRequest {
        anchor: ray.origin,
        origin: Vec3::zero(),
        axis: ray.direction,
        frame,
        radius,
        seeds: Vec::new(),
        length: ray.length,
    };
    let aabb: Aabb = swept_aabb(ray.origin.plus(Vec3::zero()), ray.direction, ray.length, radius);
    let count: usize = if F32::zero().lt(radius) {
        scene.ring.len() + 1
    } else {
        1
    };
    let mut answers: Vec<Vec<Candidate>> = Vec::new();
    let mut n: usize = 0;
    while n < count
        invariant
            n <= count,
            scene.wf(),
            answers@.len() == n,
            forall|i: int|
                0 <= i < n ==> (#[trigger] answers@[i])@ == candidates_upto(
                    scene.colliders@,
                    aabb,
                    scene.colliders@.len() as int,
                ),
            forall|i: int, j: int| 0 <= i < n && 0 <= j < answers@[i]@.len() ==> (#[trigger] answers@[i]@[j]).wf(),
        decreases count - n,
    {
        answers.push(candidates(scene, &aabb));
        n = n + 1;
    }
    proof {
        assert(is_probe_request(request, *ray, frame, radius));
        assert(scene.ring.len() == scene.ring@.len());
    }
    let collected: Result<DiscCorridor, WalkError> = build_corridor(&request, &scene.ring, &answers, &scene.laws);
    proof {
        assert(resolve::listed(answers@) =~= answers_of(*scene, request));
        assert(is_collected(collected, *scene, *ray, frame, radius));
    }
    let corridor: DiscCorridor = match collected {
        Ok(corridor) => corridor,
        Err(error) => {
            return Err(error);
        },
    };
    match volume_table(&corridor, &scene.factors) {
        Ok(volumes) => Ok((corridor, volumes)),
        Err(error) => Err(error),
    }
}

/// The walk of a ray by a disc of a radius.
pub open spec fn is_probe(result: Result<DiscWalk, WalkError>, scene: Scene, ray: FuzzRay, radius: F32) -> bool {
    ||| result matches Err(error) && are_parts(Err(error), scene, ray, radius)
    ||| exists|corridor: DiscCorridor, volumes: VolumeTable|
        {
            &&& #[trigger] are_parts(Ok((corridor, volumes)), scene, ray, radius)
            &&& match result {
                Ok(walk) => disc_walk::is_disc_walk(walk, corridor, scene.laws, volumes.spec_rows(), volumes@)
                    && walk.wf() && walk.walks@.len() > 0,
                Err(error) => disc_walk::disc_error(corridor, scene.laws, volumes.spec_rows(), volumes@, error),
            }
        }
}

/// Collects and walks a ray.
pub fn probe(scene: &Scene, ray: &FuzzRay, radius: F32) -> (result: Result<DiscWalk, WalkError>)
    requires
        scene.wf(),
    ensures
        is_probe(result, *scene, *ray, radius),
        result matches Ok(walk) ==> walk.wf() && walk.walks@.len() > 0,
{
    match probe_parts(scene, ray, radius) {
        Ok((corridor, volumes)) => {
            assert(are_parts(Ok((corridor, volumes)), *scene, *ray, radius));
            walk_disc(&corridor, &volumes, &scene.laws)
        },
        Err(error) => Err(error),
    }
}


proof fn lemma_the_first_row_names_an_entity(names: Seq<(Entity, String)>, entity: Entity, from: int)
    requires
        0 <= from,
    ensures
        match name_from(names, entity, from) {
            Some(name) => exists|i: int|
                {
                    &&& from <= i < names.len()
                    &&& (#[trigger] names[i]).0 == entity
                    &&& names[i].1@ == name
                    &&& forall|j: int| from <= j < i ==> !((#[trigger] names[j]).0 == entity)
                },
            None => forall|j: int| from <= j < names.len() ==> !((#[trigger] names[j]).0 == entity),
        },
    decreases names.len() - from,
{
    if from < names.len() && !(names[from].0 == entity) {
        lemma_the_first_row_names_an_entity(names, entity, from + 1);
    } else if from < names.len() {
        assert(names[from].0 == entity);
    }
}

/// An entity is named as its first row says, and has no name exactly where no row names it.
pub proof fn law_the_first_row_names_an_entity(names: Seq<(Entity, String)>, entity: Entity)
    ensures
        match name_from(names, entity, 0) {
            Some(name) => exists|i: int|
                {
                    &&& 0 <= i < names.len()
                    &&& (#[trigger] names[i]).0 == entity
                    &&& names[i].1@ == name
                    &&& forall|j: int| 0 <= j < i ==> !((#[trigger] names[j]).0 == entity)
                },
            None => forall|j: int| 0 <= j < names.len() ==> !((#[trigger] names[j]).0 == entity),
        },
{
    lemma_the_first_row_names_an_entity(names, entity, 0);
}

proof fn lemma_the_first_row_gives_the_parent(parents: Seq<(Entity, Entity)>, entity: Entity, from: int)
    requires
        0 <= from,
    ensures
        match parent_from(parents, entity, from) {
            Some(parent) => exists|i: int|
                {
                    &&& from <= i < parents.len()
                    &&& (#[trigger] parents[i]).0 == entity
                    &&& parents[i].1 == parent
                    &&& forall|j: int| from <= j < i ==> !((#[trigger] parents[j]).0 == entity)
                },
            None => forall|j: int| from <= j < parents.len() ==> !((#[trigger] parents[j]).0 == entity),
        },
    decreases parents.len() - from,
{
    if from < parents.len() && !(parents[from].0 == entity) {
        lemma_the_first_row_gives_the_parent(parents, entity, from + 1);
    } else if from < parents.len() {
        assert(parents[from].0 == entity);
    }
}

/// An entity hangs below what its first row says, and below nothing exactly where it has no row.
pub proof fn law_the_first_row_gives_the_parent(parents: Seq<(Entity, Entity)>, entity: Entity)
    ensures
        match parent_from(parents, entity, 0) {
            Some(parent) => exists|i: int|
                {
                    &&& 0 <= i < parents.len()
                    &&& (#[trigger] parents[i]).0 == entity
                    &&& parents[i].1 == parent
                    &&& forall|j: int| 0 <= j < i ==> !((#[trigger] parents[j]).0 == entity)
                },
            None => forall|j: int| 0 <= j < parents.len() ==> !((#[trigger] parents[j]).0 == entity),
        },
{
    lemma_the_first_row_gives_the_parent(parents, entity, 0);
}

} // verus!
