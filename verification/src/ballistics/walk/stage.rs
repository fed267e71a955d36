//! The staged resolution of one contact.
//!
//! The entrance is sampled along the incoming axis, the transit along the bent
//! one, so the caller collects twice: [`begin`] reads the entrance and says which
//! corridor it needs next, [`finish`] resolves that corridor.

use crate::ballistics::walk::disc::{CostProfile, DiscEvent, DiscFrame, DiscSpall, DiscWalk, EntityShare, SampleSeed};
use crate::ballistics::walk::events;
use crate::ballistics::walk::events::position_at;
use crate::ballistics::walk::ray;
use crate::ballistics::walk::vocabulary::{Entity, PrimitiveKey, WalkError, WalkLaws};
use crate::float::{F32, F64};
use crate::vector::Vec3;
use vstd::prelude::*;

verus! {

/// The striking round, as far as the laws read it.
#[derive(Clone, Copy, Debug, PartialEq, Eq, Structural)]
pub struct Shot {
    pub caliber: F32,
    /// The reference millimetres that the round can defeat.
    pub capability: F32,
}

/// What the surface laws read off the entrance.
#[derive(Clone, Copy, Debug, PartialEq, Eq, Structural)]
pub struct EntranceRead {
    pub position: Vec3,
    pub normal: Vec3,
    pub coverage: F32,
    pub incidence: F32,
    /// The steel-equivalent thickness (m), along the normal, of the material engaged:
    /// over the covered samples, so a partial engagement does not fake a thin plate.
    pub steel_equivalent: F32,
    pub overmatched: bool,
}

/// The directions that a contact turns on, which the caller computes with the
/// trigonometry of its platform.
#[derive(Clone, Copy, Debug, PartialEq, Eq, Structural)]
pub struct Turn {
    /// The angle between the axis and the inward entry normal.
    pub incidence: F32,
    /// The axis reflected off the surface.
    pub specular: Vec3,
    /// The angle between the axis and its reflection.
    pub full: F32,
    /// The axis turned toward its reflection by [`blend_angle`].
    pub blended: Vec3,
    /// The axis turned toward the inward normal by [`bend_angle`].
    pub bent: Vec3,
    /// The frame's first vector under the least rotation from the axis to the bent one.
    pub carried: Vec3,
}

/// How far the axis turns toward the inward normal as the round bites in: a barely engaged
/// entry is barely bent.
pub open spec fn bend_of(coverage: F32, incidence: F32, laws: WalkLaws) -> F32 {
    coverage.product(laws.normalization).product(incidence)
}

/// The angle (rad) that an entry bends by.
pub fn bend_angle(coverage: F32, incidence: F32, laws: &WalkLaws) -> (angle: F32)
    ensures
        angle == bend_of(coverage, incidence, *laws),
{
    coverage.times(laws.normalization).times(incidence)
}

/// The angle (rad) that a bounce turns by, where `full` is the angle between the axis and its
/// reflection: a graze turns by its coverage's share.
pub fn blend_angle(coverage: F32, full: F32) -> (angle: F32)
    ensures
        angle == coverage.product(full),
{
    coverage.times(full)
}

/// The corridor that a round which bit in needs next.
#[derive(Clone, Debug, PartialEq)]
pub struct TransitRequest {
    pub entrance: EntranceRead,
    /// The bent axis.
    pub axis: Vec3,
    /// The angle that the axis was bent by, toward the inward normal.
    pub bend: F32,
    pub anchor: Vec3,
    /// Where the disc's axis crosses the entrance surface.
    pub origin: Vec3,
    pub frame: DiscFrame,
    pub radius: F32,
    pub samples: usize,
    /// The volumes that the entrance engaged, in order.
    pub entrance_entities: Vec<Entity>,
    /// The primitives that the entrance touched, in order.
    pub entrance_primitives: Vec<PrimitiveKey>,
    pub seeds: Vec<SampleSeed>,
}

impl TransitRequest {
    /// There is a seed for each sample.
    pub open spec fn wf(self) -> bool {
        self.seeds@.len() == self.samples
    }
}

/// Where the entrance leaves the shot.
#[derive(Clone, Debug, PartialEq)]
pub enum Begin {
    /// The disc met no material.
    Miss,
    /// Too oblique and not overmatched: deflected by an angle, no entry.
    Ricochet { entrance: EntranceRead, direction: Vec3, angle: F32, speed_scale: F32 },
    /// It bit in.
    Transit(TransitRequest),
}

/// A vector of finite, positive length.
pub open spec fn has_direction(v: Vec3) -> bool {
    v.norm().finite() && F32::zero().below(v.norm())
}

/// The disc met material that can be read.
pub open spec fn is_engaged(entrance: DiscWalk) -> bool {
    &&& entrance.events@.len() > 0
    &&& !entrance.events@[0].coverage.at_most(F32::zero())
    &&& !entrance.events@[0].entry_normal.equals(Vec3::zero())
    &&& has_direction(entrance.axis)
    &&& has_direction(entrance.events@[0].entry_normal)
}

/// The steel-equivalent thickness of a crossing along its normal.
pub open spec fn thickness_of(axis: Vec3, event: DiscEvent, laws: WalkLaws) -> F32 {
    event.cost.quotient(event.coverage.larger(F32 { bits: 0x0080_0000 })).quotient(laws.rha_reference).product(
        axis.inner(event.entry_normal).absolute(),
    )
}

/// What the laws read off the entrance.
pub open spec fn entrance_read(entrance: DiscWalk, shot: Shot, laws: WalkLaws, incidence: F32) -> EntranceRead {
    let event = entrance.events@[0];
    let thickness = thickness_of(entrance.axis, event, laws);
    EntranceRead {
        position: event.entry_position,
        normal: event.entry_normal,
        coverage: event.coverage,
        incidence,
        steel_equivalent: thickness,
        overmatched: F32::zero().below(thickness) && laws.overmatch_ratio.product(thickness).at_most(shot.caliber),
    }
}

/// The round bounces.
pub open spec fn ricochets(read: EntranceRead, laws: WalkLaws) -> bool {
    !read.overmatched && laws.ricochet_angle.below(read.incidence)
}

/// How far along the axis a ray from `from` meets the mean entrance surface.
pub open spec fn plane_at(entrance: DiscWalk, from: Vec3) -> F32 {
    let event = entrance.events@[0];
    event.entry_position.difference(from).inner(event.entry_normal).quotient(
        entrance.axis.inner(event.entry_normal),
    )
}

/// One sample's resumption: where its own ray meets the surface, and the shells it
/// is inside there.
pub open spec fn is_handoff(seed: SampleSeed, entrance: DiscWalk, sample: int, laws: WalkLaws) -> bool {
    let offset = entrance.offsets@[sample];
    let axis_t = plane_at(entrance, entrance.origin);
    let t = plane_at(entrance, entrance.origin.sum(offset));
    &&& seed.sample == sample
    &&& seed.offset == offset.sum(entrance.axis.scaled(t.difference(axis_t)))
    &&& seed.t == t.doubled()
    &&& seed.inside@ == ray::inside_upto(
        entrance.walks@[sample].shells@,
        t.doubled(),
        laws,
        entrance.walks@[sample].shells@.len() as int,
    )
}

/// The entities of the shares, in order.
pub open spec fn are_entities(entities: Seq<Entity>, shares: Seq<EntityShare>) -> bool {
    &&& forall|i: int, j: int| 0 <= i < j < entities.len() ==> (#[trigger] entities[i]).id <= (#[trigger] entities[j]).id
    &&& entities.to_multiset() == shares.map_values(|share: EntityShare| share.entity).to_multiset()
}

/// Lists the entities of the shares in order.
fn list_entities(shares: &Vec<EntityShare>) -> (entities: Vec<Entity>)
    ensures
        are_entities(entities@, shares@),
{
    broadcast use vstd::seq_lib::group_to_multiset_ensures;

    let ghost named = shares@.map_values(|share: EntityShare| share.entity);
    let mut entities: Vec<Entity> = Vec::new();
    let mut n: usize = 0;
    assert(named.take(0) =~= entities@);
    while n < shares.len()
        invariant
            n <= shares@.len(),
            named == shares@.map_values(|share: EntityShare| share.entity),
            forall|i: int, j: int|
                0 <= i < j < entities@.len() ==> (#[trigger] entities@[i]).id <= (#[trigger] entities@[j]).id,
            entities@.to_multiset() == named.take(n as int).to_multiset(),
        decreases shares.len() - n,
    {
        broadcast use vstd::seq_lib::group_to_multiset_ensures;

        let entity: Entity = shares[n].entity;
        let mut at: usize = entities.len();
        while at > 0 && entity.id < entities[at - 1].id
            invariant
                at <= entities@.len(),
                forall|i: int, j: int|
                    0 <= i < j < entities@.len() ==> (#[trigger] entities@[i]).id <= (#[trigger] entities@[j]).id,
                forall|i: int| at <= i < entities@.len() ==> entity.id <= (#[trigger] entities@[i]).id,
            decreases at,
        {
            at = at - 1;
        }
        let ghost before = entities@;
        proof {
            assert forall|i: int| 0 <= i < at implies (#[trigger] before[i]).id <= entity.id by {
                if i < at - 1 {
                    assert(before[i].id <= before[at - 1].id);
                }
            }
            let after = before.insert(at as int, entity);
            assert(after.remove(at as int) =~= before);
            assert(after[at as int] == entity);
            assert(after.contains(entity));
            assert(after.to_multiset() =~= before.to_multiset().insert(entity));
            assert(named.take(n + 1) =~= named.take(n as int).push(entity));
        }
        entities.insert(at, entity);
        n = n + 1;
    }
    assert(named.take(n as int) =~= named);
    entities
}

/// The corridor to collect next.
pub open spec fn is_request(
    request: TransitRequest,
    entrance: DiscWalk,
    shot: Shot,
    laws: WalkLaws,
    turn: Turn,
) -> bool {
    let event = entrance.events@[0];
    &&& request.entrance == entrance_read(entrance, shot, laws, turn.incidence)
    &&& request.axis == turn.bent
    &&& request.bend == bend_of(event.coverage, turn.incidence, laws)
    &&& request.anchor == entrance.anchor
    &&& request.origin == entrance.origin.sum(entrance.axis.scaled(plane_at(entrance, entrance.origin)))
    &&& request.frame == entrance.frame.spec_transported(turn.bent, turn.carried)
    &&& request.radius == entrance.radius
    &&& request.samples == entrance.walks@.len()
    &&& are_entities(request.entrance_entities@, event.shares@)
    &&& request.entrance_primitives@ == event.primitives@
    &&& request.seeds@.len() == entrance.walks@.len()
    &&& forall|i: int| 0 <= i < request.seeds@.len() ==> is_handoff(#[trigger] request.seeds@[i], entrance, i, laws)
}

fn directed(v: Vec3) -> (yes: bool)
    ensures
        yes == has_direction(v),
{
    let len: F32 = v.length();
    len.is_finite() && F32::zero().lt(len)
}

/// Reads the entrance and decides whether the round enters. The bounce is scaled by
/// coverage: a graze is a partial ricochet, and at full coverage the reflection is
/// returned as it came.
pub fn begin(entrance: &DiscWalk, shot: &Shot, laws: &WalkLaws, turn: &Turn) -> (begun: Begin)
    requires
        entrance.wf(),
    ensures
        match begun {
            Begin::Miss => !is_engaged(*entrance),
            Begin::Ricochet { entrance: read, direction, angle, speed_scale } => {
                let event = entrance.events@[0];
                &&& is_engaged(*entrance)
                &&& read == entrance_read(*entrance, *shot, *laws, turn.incidence)
                &&& ricochets(read, *laws)
                &&& direction == if F32::one().at_most(event.coverage) {
                    turn.specular
                } else {
                    turn.blended
                }
                &&& angle == if F32::one().at_most(event.coverage) {
                    turn.full
                } else {
                    event.coverage.product(turn.full)
                }
                &&& speed_scale == F32::one().difference(
                    event.coverage.product(F32::one().difference(laws.ricochet_bleed)),
                )
            },
            Begin::Transit(request) => {
                &&& is_engaged(*entrance)
                &&& !ricochets(entrance_read(*entrance, *shot, *laws, turn.incidence), *laws)
                &&& is_request(request, *entrance, *shot, *laws, *turn)
                &&& request.wf()
            },
        },
{
    if entrance.events.len() == 0 {
        return Begin::Miss;
    }
    let event: &DiscEvent = &entrance.events[0];
    let normal: Vec3 = event.entry_normal;
    if event.coverage.le(F32::zero()) || normal.same(Vec3::zero()) || !directed(entrance.axis) || !directed(normal) {
        return Begin::Miss;
    }
    let along_normal: F32 = entrance.axis.dot(normal).abs();
    let thickness: F32 = event.cost.over(event.coverage.max(F32 { bits: 0x0080_0000 })).over(
        laws.rha_reference,
    ).times(along_normal);
    let overmatched: bool = F32::zero().lt(thickness) && laws.overmatch_ratio.times(thickness).le(shot.caliber);
    let read: EntranceRead = EntranceRead {
        position: event.entry_position,
        normal,
        coverage: event.coverage,
        incidence: turn.incidence,
        steel_equivalent: thickness,
        overmatched,
    };
    if !overmatched && laws.ricochet_angle.lt(turn.incidence) {
        let (direction, angle): (Vec3, F32) = if F32::one().le(event.coverage) {
            (turn.specular, turn.full)
        } else {
            (turn.blended, blend_angle(event.coverage, turn.full))
        };
        let kept: F32 = F32::one().minus(laws.ricochet_bleed);
        return Begin::Ricochet {
            entrance: read,
            direction,
            angle,
            speed_scale: F32::one().minus(event.coverage.times(kept)),
        };
    }
    let denominator: F32 = entrance.axis.dot(normal);
    let axis_t: F32 = event.entry_position.minus(entrance.origin).dot(normal).over(denominator);
    let handoff: Vec3 = entrance.origin.plus(entrance.axis.times(axis_t));
    let mut seeds: Vec<SampleSeed> = Vec::new();
    let mut sample: usize = 0;
    while sample < entrance.walks.len()
        invariant
            sample <= entrance.walks.len(),
            entrance.wf(),
            entrance.events@.len() > 0,
            *event == entrance.events@[0],
            normal == event.entry_normal,
            denominator == entrance.axis.inner(normal),
            axis_t == plane_at(*entrance, entrance.origin),
            seeds@.len() == sample,
            forall|i: int| 0 <= i < sample ==> is_handoff(#[trigger] seeds@[i], *entrance, i, *laws),
        decreases entrance.walks.len() - sample,
    {
        let offset: Vec3 = entrance.offsets[sample];
        let from: Vec3 = entrance.origin.plus(offset);
        let t: F32 = event.entry_position.minus(from).dot(normal).over(denominator);
        let wide: F64 = t.to_double();
        seeds.push(
            SampleSeed {
                sample,
                offset: offset.plus(entrance.axis.times(t.minus(axis_t))),
                t: wide,
                inside: entrance.walks[sample].inside_at(wide, laws),
            },
        );
        sample = sample + 1;
    }
    let entities: Vec<Entity> = list_entities(&event.shares);
    let mut primitives: Vec<PrimitiveKey> = Vec::new();
    let mut m: usize = 0;
    while m < event.primitives.len()
        invariant
            m <= event.primitives@.len(),
            primitives@ == event.primitives@.take(m as int),
        decreases event.primitives.len() - m,
    {
        primitives.push(event.primitives[m]);
        assert(event.primitives@.take(m + 1) =~= event.primitives@.take(m as int).push(event.primitives@[m as int]));
        m = m + 1;
    }
    assert(event.primitives@.take(m as int) =~= event.primitives@);
    Begin::Transit(
        TransitRequest {
            entrance: read,
            axis: turn.bent,
            bend: bend_angle(event.coverage, turn.incidence, laws),
            anchor: entrance.anchor,
            origin: handoff,
            frame: entrance.frame.transport(turn.bent, turn.carried),
            radius: entrance.radius,
            samples: entrance.samples(),
            entrance_entities: entities,
            entrance_primitives: primitives,
            seeds,
        },
    )
}

/// How the crossing ended.
#[derive(Clone, Copy, Debug, PartialEq, Eq, Structural)]
pub enum Outcome {
    /// Stopped where the mean cost reaches the capability.
    Embedded { at: Vec3, t: F64 },
    /// Punched through.
    Perforated { exit: Vec3, exit_normal: Vec3, direction: Vec3, t: F64 },
}

/// What one volume takes of the crossing.
#[derive(Clone, Copy, Debug, PartialEq, Eq, Structural)]
pub struct EntityDeposit {
    pub entity: Entity,
    pub factor: F32,
    pub chord: F32,
    pub cost: F32,
    pub coverage: F32,
}

/// Everything the crossing decided.
#[derive(Clone, Debug, PartialEq)]
pub struct ResolutionPlan {
    pub entrance: EntranceRead,
    pub outcome: Outcome,
    pub cost_spent: F32,
    pub deposits: Vec<EntityDeposit>,
    pub spall: Vec<DiscSpall>,
}

/// The two vectors are further apart than a tenth of a millimetre.
pub open spec fn is_apart(a: Vec3, b: Vec3) -> bool {
    (F32 { bits: 0x38d1_b717 }).below(a.difference(b).norm())
}

fn apart(a: Vec3, b: Vec3) -> (yes: bool)
    ensures
        yes == is_apart(a, b),
{
    (F32 { bits: 0x38d1_b717 }).lt(a.minus(b).length())
}

/// Some sample resumes elsewhere than the handoff put it.
pub open spec fn strays(transit: DiscWalk, request: TransitRequest) -> bool {
    exists|i: int|
        0 <= i < request.seeds@.len() && is_apart(transit.offsets@[i], (#[trigger] request.seeds@[i]).offset)
}

/// The crossing is made of the entrance's geometry, or lies on its surface.
pub open spec fn is_same_contact(event: DiscEvent, request: TransitRequest) -> bool {
    ||| exists|key: PrimitiveKey| #[trigger]
        event.primitives@.contains(key) && request.entrance_primitives@.contains(key)
    ||| (F32 { bits: 0x3f66_6666 }).at_most(event.entry_normal.inner(request.entrance.normal))
}

/// Why the corridor is not the one asked for, the first reason that holds.
pub open spec fn mismatch(transit: DiscWalk, request: TransitRequest) -> Option<Seq<char>> {
    if is_apart(transit.axis, request.axis) {
        Some("the corridor was collected along a different axis than the bend asked for"@)
    } else if !transit.anchor.equals(request.anchor) {
        Some("the corridor was collected against a different world anchor"@)
    } else if is_apart(transit.origin, request.origin) {
        Some("the corridor starts somewhere other than the entrance handoff point"@)
    } else if is_apart(transit.frame.u, request.frame.u) || is_apart(transit.frame.v, request.frame.v) {
        Some("the ring frame was re-derived instead of transported"@)
    } else if (F32 { bits: 0x3586_37bd }).below(transit.radius.difference(request.radius).absolute()) {
        Some("the corridor samples a different disc radius"@)
    } else if transit.walks@.len() != request.samples {
        Some("the corridor has a different sample count than the entrance disc"@)
    } else if strays(transit, request) {
        Some("a sample ray resumes somewhere other than where the handoff put it"@)
    } else if transit.events@.len() == 0 {
        None
    } else if !is_same_contact(transit.events@[0], request) {
        Some("the corridor's first crossing is neither made of the entrance's geometry nor on its surface"@)
    } else if (F32 { bits: 0x3a83_126f }).doubled().below(transit.events@[0].start) {
        Some("the corridor's first crossing does not begin at the handoff plane"@)
    } else {
        None
    }
}

/// Checks that the corridor is the one that was asked for.
pub fn validate_transit(transit: &DiscWalk, request: &TransitRequest) -> (result: Result<(), WalkError>)
    requires
        transit.wf(),
        request.wf(),
    ensures
        match result {
            Ok(_) => mismatch(*transit, *request) is None,
            Err(error) => error matches WalkError::CorridorMismatch { reason } && mismatch(*transit, *request) == Some(
                reason@,
            ),
        },
{
    if apart(transit.axis, request.axis) {
        return Err(
            WalkError::CorridorMismatch {
                reason: "the corridor was collected along a different axis than the bend asked for",
            },
        );
    }
    if !transit.anchor.same(request.anchor) {
        return Err(
            WalkError::CorridorMismatch { reason: "the corridor was collected against a different world anchor" },
        );
    }
    if apart(transit.origin, request.origin) {
        return Err(
            WalkError::CorridorMismatch {
                reason: "the corridor starts somewhere other than the entrance handoff point",
            },
        );
    }
    if apart(transit.frame.u, request.frame.u) || apart(transit.frame.v, request.frame.v) {
        return Err(
            WalkError::CorridorMismatch { reason: "the ring frame was re-derived instead of transported" },
        );
    }
    if (F32 { bits: 0x3586_37bd }).lt(transit.radius.minus(request.radius).abs()) {
        return Err(WalkError::CorridorMismatch { reason: "the corridor samples a different disc radius" });
    }
    if transit.samples() != request.samples {
        return Err(
            WalkError::CorridorMismatch {
                reason: "the corridor has a different sample count than the entrance disc",
            },
        );
    }
    let mut i: usize = 0;
    while i < request.seeds.len()
        invariant
            i <= request.seeds.len(),
            transit.wf(),
            request.wf(),
            transit.walks@.len() == request.samples,
            forall|j: int| 0 <= j < i ==> !is_apart(transit.offsets@[j], (#[trigger] request.seeds@[j]).offset),
            !is_apart(transit.axis, request.axis),
            transit.anchor.equals(request.anchor),
            !is_apart(transit.origin, request.origin),
            !is_apart(transit.frame.u, request.frame.u),
            !is_apart(transit.frame.v, request.frame.v),
            !(F32 { bits: 0x3586_37bd }).below(transit.radius.difference(request.radius).absolute()),
        decreases request.seeds.len() - i,
    {
        if apart(transit.offsets[i], request.seeds[i].offset) {
            assert(is_apart(transit.offsets@[i as int], request.seeds@[i as int].offset));
            return Err(
                WalkError::CorridorMismatch {
                    reason: "a sample ray resumes somewhere other than where the handoff put it",
                },
            );
        }
        i = i + 1;
    }
    assert(!strays(*transit, *request));
    if transit.events.len() == 0 {
        return Ok(());
    }
    let event: &DiscEvent = &transit.events[0];
    let mut common: bool = false;
    let mut a: usize = 0;
    while a < event.primitives.len() && !common
        invariant
            a <= event.primitives@.len(),
            common ==> exists|key: PrimitiveKey| #[trigger]
                event.primitives@.contains(key) && request.entrance_primitives@.contains(key),
            !common ==> forall|x: int|
                0 <= x < a ==> !request.entrance_primitives@.contains(#[trigger] event.primitives@[x]),
        decreases event.primitives.len() - a,
    {
        let key: PrimitiveKey = event.primitives[a];
        let mut b: usize = 0;
        while b < request.entrance_primitives.len() && !common
            invariant
                b <= request.entrance_primitives@.len(),
                a < event.primitives@.len(),
                key == event.primitives@[a as int],
                common ==> event.primitives@.contains(key) && request.entrance_primitives@.contains(key),
                !common ==> forall|y: int| 0 <= y < b ==> #[trigger] request.entrance_primitives@[y] != key,
            decreases request.entrance_primitives.len() - b,
        {
            if request.entrance_primitives[b] == key {
                common = true;
                assert(request.entrance_primitives@[b as int] == key);
            }
            b = b + 1;
        }
        a = a + 1;
    }
    proof {
        if !common {
            assert forall|key: PrimitiveKey| #[trigger] event.primitives@.contains(key) implies !request.entrance_primitives@.contains(
                key,
            ) by {
                let x = choose|x: int| 0 <= x < event.primitives@.len() && event.primitives@[x] == key;
                assert(!request.entrance_primitives@.contains(event.primitives@[x]));
            }
        }
    }
    let same_surface: bool = (F32 { bits: 0x3f66_6666 }).le(event.entry_normal.dot(request.entrance.normal));
    if !(common || same_surface) {
        return Err(
            WalkError::CorridorMismatch {
                reason: "the corridor's first crossing is neither made of the entrance's geometry nor on its surface",
            },
        );
    }
    if (F32 { bits: 0x3a83_126f }).to_double().lt(event.start) {
        return Err(
            WalkError::CorridorMismatch {
                reason: "the corridor's first crossing does not begin at the handoff plane",
            },
        );
    }
    Ok(())
}

/// What an overmatched crossing is charged at: the share of its chord along the normal.
pub open spec fn charge_of(transit: DiscWalk, request: TransitRequest) -> F64 {
    if request.entrance.overmatched {
        transit.axis.inner(request.entrance.normal).absolute().doubled()
    } else {
        F64::one()
    }
}

/// The lengths, before the cut, of the first `n` stretches.
pub open spec fn length_before(spans: Seq<(F64, F64)>, cut: F64, n: int) -> F64
    decreases n,
{
    if n <= 0 {
        F64::zero()
    } else {
        length_before(spans, cut, n - 1).sum(
            spans[n - 1].1.smaller(cut).difference(spans[n - 1].0).larger(F64::zero()),
        )
    }
}

/// Some stretch starts before the cut.
pub open spec fn starts_before(spans: Seq<(F64, F64)>, cut: F64) -> bool {
    exists|i: int| 0 <= i < spans.len() && (#[trigger] spans[i]).0.below(cut)
}

/// What one volume takes, clipped where the round stops and never scaled there.
pub open spec fn deposit_of(share: EntityShare, cut: F64, charge: F64, samples: nat) -> EntityDeposit {
    let charged = length_before(share.spans@, cut, share.spans@.len() as int).quotient(F64::whole(samples)).product(
        charge,
    );
    EntityDeposit {
        entity: share.entity,
        factor: share.factor,
        chord: charged.halved(),
        cost: charged.product(share.factor.doubled()).halved(),
        coverage: if samples > 0 && starts_before(share.spans@, cut) {
            share.coverage
        } else {
            F32::zero()
        },
    }
}

/// The deposits of the first `n` shares that take anything.
pub open spec fn deposits_of(shares: Seq<EntityShare>, cut: F64, charge: F64, samples: nat, n: int) -> Seq<EntityDeposit>
    decreases n,
{
    if n <= 0 {
        Seq::empty()
    } else {
        let rest = deposits_of(shares, cut, charge, samples, n - 1);
        let deposit = deposit_of(shares[n - 1], cut, charge, samples);
        if F32::zero().below(deposit.chord) {
            rest.push(deposit)
        } else {
            rest
        }
    }
}

/// The sources of spall among the first `n` that the round reached, charged as the
/// cost is.
pub open spec fn spall_before(spall: Seq<DiscSpall>, cut: F64, charge: F64, n: int) -> Seq<DiscSpall>
    decreases n,
{
    if n <= 0 {
        Seq::empty()
    } else {
        let rest = spall_before(spall, cut, charge, n - 1);
        let mark = spall[n - 1];
        if mark.t.at_most(cut) {
            rest.push(DiscSpall { budget: mark.budget.doubled().product(charge).halved(), ..mark })
        } else {
            rest
        }
    }
}

/// Where the round stops: it perforates where it can defeat the whole cost, and else
/// stops where the cost reaches what it can defeat.
pub open spec fn stop_of(profile: CostProfile, capability: F64) -> Option<F64> {
    if profile.spec_total().at_most(capability) {
        None
    } else {
        profile.spec_invert(capability)
    }
}

/// The plan of a corridor that is the one asked for and met material.
pub open spec fn is_plan(plan: ResolutionPlan, transit: DiscWalk, request: TransitRequest, shot: Shot) -> bool {
    let event = transit.events@[0];
    let charge = charge_of(transit, request);
    &&& plan.entrance == request.entrance
    &&& exists|profile: CostProfile|
        {
            let total = profile.spec_total();
            let stop = stop_of(profile, shot.capability.doubled());
            let cut = match stop {
                Some(t) => t,
                None => event.end,
            };
            &&& #[trigger] is_scaled(profile, event.profile, charge)
            &&& plan.outcome == match stop {
                Some(t) => Outcome::Embedded { at: events::point_at(transit.origin, transit.axis, t), t },
                None => Outcome::Perforated {
                    exit: event.exit_position,
                    exit_normal: event.exit_normal,
                    direction: transit.axis,
                    t: event.end,
                },
            }
            &&& plan.cost_spent == match stop {
                Some(_) => shot.capability.smaller(total.halved()),
                None => total.halved(),
            }
            &&& plan.deposits@ == deposits_of(
                event.shares@,
                cut,
                charge,
                transit.walks@.len(),
                event.shares@.len() as int,
            )
            &&& plan.spall@ == spall_before(event.spall@, cut, charge, event.spall@.len() as int)
        }
}

/// `profile` is `base` times a factor.
pub open spec fn is_scaled(profile: CostProfile, base: CostProfile, factor: F64) -> bool {
    &&& profile.ts@ == base.ts@
    &&& profile.cumulative@.len() == base.cumulative@.len()
    &&& forall|i: int|
        0 <= i < base.cumulative@.len() ==> #[trigger] profile.cumulative@[i] == base.cumulative@[i].product(factor)
}

fn read_deposit(share: &EntityShare, cut: F64, charge: F64, samples: usize) -> (deposit: EntityDeposit)
    ensures
        deposit == deposit_of(*share, cut, charge, samples as nat),
{
    let mut length: F64 = F64::zero();
    let mut reached: bool = false;
    let mut n: usize = 0;
    while n < share.spans.len()
        invariant
            n <= share.spans@.len(),
            length == length_before(share.spans@, cut, n as int),
            reached == exists|i: int| 0 <= i < n && (#[trigger] share.spans@[i]).0.below(cut),
        decreases share.spans.len() - n,
    {
        let (a, b) = share.spans[n];
        length = length.plus(b.min(cut).minus(a).max(F64::zero()));
        if a.lt(cut) {
            reached = true;
            assert(share.spans@[n as int].0.below(cut));
        }
        n = n + 1;
    }
    let charged: F64 = length.over(F64::from_whole(samples as u64)).times(charge);
    EntityDeposit {
        entity: share.entity,
        factor: share.factor,
        chord: charged.to_single(),
        cost: charged.times(share.factor.to_double()).to_single(),
        coverage: if samples > 0 && reached {
            share.coverage
        } else {
            F32::zero()
        },
    }
}

/// Resolves the transit corridor. The plan is owed exactly where the corridor is the
/// one asked for and met material.
pub fn finish(transit: &DiscWalk, request: &TransitRequest, shot: &Shot, _laws: &WalkLaws) -> (result: Result<
    ResolutionPlan,
    WalkError,
>)
    requires
        transit.wf(),
        request.wf(),
        transit.events@.len() > 0 ==> transit.events@[0].profile.wf(),
    ensures
        match result {
            Ok(plan) => mismatch(*transit, *request) is None && transit.events@.len() > 0 && is_plan(
                plan,
                *transit,
                *request,
                *shot,
            ),
            Err(error) => match mismatch(*transit, *request) {
                Some(why) => error matches WalkError::CorridorMismatch { reason } && reason@ == why,
                None => transit.events@.len() == 0 && (error matches WalkError::BadCorridor { sample, reason } && sample
                    == 0 && reason@ == "the transit corridor met no material after the entrance decided to enter"@),
            },
        },
{
    match validate_transit(transit, request) {
        Ok(_) => {},
        Err(error) => {
            return Err(error);
        },
    }
    if transit.events.len() == 0 {
        return Err(
            WalkError::BadCorridor {
                sample: 0,
                reason: "the transit corridor met no material after the entrance decided to enter",
            },
        );
    }
    let event: &DiscEvent = &transit.events[0];
    let samples: usize = transit.samples();
    let charge: F64 = if request.entrance.overmatched {
        transit.axis.dot(request.entrance.normal).abs().to_double()
    } else {
        F64::one()
    };
    let profile: CostProfile = event.profile.scaled(charge);
    assert(is_scaled(profile, event.profile, charge));
    let total: F32 = profile.total().to_single();
    let capability: F64 = shot.capability.to_double();
    let stop: Option<F64> = if profile.total().le(capability) {
        None
    } else {
        profile.invert(capability)
    };
    let (outcome, cost_spent, cut) = match stop {
        Some(t) => (
            Outcome::Embedded { at: position_at(transit.origin, transit.axis, t), t },
            shot.capability.min(total),
            t,
        ),
        None => (
            Outcome::Perforated {
                exit: event.exit_position,
                exit_normal: event.exit_normal,
                direction: transit.axis,
                t: event.end,
            },
            total,
            event.end,
        ),
    };
    let mut deposits: Vec<EntityDeposit> = Vec::new();
    let mut n: usize = 0;
    while n < event.shares.len()
        invariant
            n <= event.shares@.len(),
            samples == transit.walks@.len(),
            deposits@ == deposits_of(event.shares@, cut, charge, samples as nat, n as int),
        decreases event.shares.len() - n,
    {
        let deposit: EntityDeposit = read_deposit(&event.shares[n], cut, charge, samples);
        if F32::zero().lt(deposit.chord) {
            deposits.push(deposit);
        }
        n = n + 1;
    }
    let mut spall: Vec<DiscSpall> = Vec::new();
    let mut m: usize = 0;
    while m < event.spall.len()
        invariant
            m <= event.spall@.len(),
            spall@ == spall_before(event.spall@, cut, charge, m as int),
        decreases event.spall.len() - m,
    {
        let mark: DiscSpall = event.spall[m];
        if mark.t.le(cut) {
            spall.push(
                DiscSpall {
                    t: mark.t,
                    position: mark.position,
                    normal: mark.normal,
                    from_factor: mark.from_factor,
                    to_factor: mark.to_factor,
                    budget: mark.budget.to_double().times(charge).to_single(),
                    coverage: mark.coverage,
                },
            );
        }
        m = m + 1;
    }
    assert(charge == charge_of(*transit, *request));
    assert(is_scaled(profile, transit.events@[0].profile, charge_of(*transit, *request)));
    Ok(ResolutionPlan { entrance: request.entrance, outcome, cost_spent, deposits, spall })
}

} // verus!
